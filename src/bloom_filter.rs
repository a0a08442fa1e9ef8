use vstd::prelude::*;
use crate::bytes::{from_le, le_bytes, lemma_le_round_trip, push_le, read_le, append_bytes, copy_range};
use crate::error::{invalid_data, Error, ErrorKind};

verus! {

/// Bits per expected key of a filter sized by default.
pub const DEFAULT_BITS_PER_KEY: usize = 10;

/// Hash functions of a filter sized by default.
pub const DEFAULT_NUM_HASHES: usize = 3;

/// The FNV-1a offset basis.
pub const FNV_OFFSET_BASIS: u64 = 0xCBF29CE484222325;

/// The FNV-1a prime.
pub const FNV_PRIME: u64 = 0x100000001B3;

/// FNV-1a over `key`, from the state `h`.
pub open spec fn fnv_fold(h: u64, key: Seq<u8>) -> u64
    decreases key.len(),
{
    if key.len() == 0 {
        h
    } else {
        fnv_fold((h ^ (key[0] as u64)).wrapping_mul(FNV_PRIME), key.drop_first())
    }
}

/// The `seed`-th hash of `key`: FNV-1a with the seed XORed into the offset basis.
pub open spec fn bloom_hash(key: Seq<u8>, seed: u64) -> u64 {
    fnv_fold(FNV_OFFSET_BASIS ^ seed, key)
}

/// Bit `i` of a little-endian-within-byte bit array. A bit past the end of the
/// array reads as set, so a short array never rules a key out.
pub open spec fn bit_of(bits: Seq<u8>, i: int) -> bool {
    if i / 8 < bits.len() {
        (bits[i / 8] >> ((i % 8) as u8)) & 1u8 == 1u8
    } else {
        true
    }
}

/// Whether bit `j` is one of the bits of `key` in a filter of `num_bits` bits
/// and `num_hashes` hashes.
pub open spec fn key_bit(key: Seq<u8>, num_bits: u64, num_hashes: u64, j: int) -> bool {
    exists|i: u64| i < num_hashes && j == (bloom_hash(key, i) % num_bits) as int
}

/// The bytes that hold `num_bits` bits.
pub open spec fn bytes_for(num_bits: u64) -> int {
    (num_bits as int + 7) / 8
}

/// The abstract filter: its size in bits, its number of hashes, its bit array.
pub struct BloomModel {
    pub num_bits: u64,
    pub num_hashes: u64,
    pub bits: Seq<u8>,
}

/// Whether `key` passes the filter: every one of its bits is set. A filter of
/// no bits cannot rule a key out.
pub open spec fn passes(f: BloomModel, key: Seq<u8>) -> bool {
    f.num_bits == 0 || forall|i: u64| i < f.num_hashes ==> #[trigger] bit_of(
        f.bits,
        (bloom_hash(key, i) % f.num_bits) as int,
    )
}

/// On-disk layout: `num_bits` and `num_hashes` as 8 little-endian bytes each, then the bits.
pub open spec fn encode_filter(f: BloomModel) -> Seq<u8> {
    le_bytes(f.num_bits) + le_bytes(f.num_hashes) + f.bits
}

/// Reads a filter back: `None` when the header is short; all that follows
/// the header is the bit array.
pub open spec fn decode_filter(data: Seq<u8>) -> Option<BloomModel> {
    if data.len() < 16 {
        None
    } else {
        Some(BloomModel { num_bits: from_le(data, 0), num_hashes: from_le(data, 8), bits: data.subrange(16, data.len() as int) })
    }
}

/// A probabilistic set of keys: a key that was inserted always passes.
pub struct BloomFilter {
    bits: Vec<u8>,
    num_bits: u64,
    num_hashes: u64,
}

impl View for BloomFilter {
    type V = BloomModel;

    closed spec fn view(&self) -> BloomModel {
        BloomModel { num_bits: self.num_bits, num_hashes: self.num_hashes, bits: self.bits@ }
    }
}

proof fn lemma_set_bit_byte(x: u8, s: u8, t: u8)
    requires
        s < 8,
        t < 8,
    ensures
        t == s ==> ((x | (1u8 << s)) >> t) & 1u8 == 1u8,
        t != s ==> ((x | (1u8 << s)) >> t) & 1u8 == (x >> t) & 1u8,
{
    assert(s < 8 && t < 8 && t == s ==> ((x | (1u8 << s)) >> t) & 1u8 == 1u8) by (bit_vector);
    assert(s < 8 && t < 8 && t != s ==> ((x | (1u8 << s)) >> t) & 1u8 == (x >> t) & 1u8) by (bit_vector);
}

proof fn lemma_byte_in_range(index: u64, num_bits: u64)
    requires
        index < num_bits,
    ensures
        index / 8 < bytes_for(num_bits),
{
    assert(index / 8 < (num_bits + 7) / 8) by (nonlinear_arith)
        requires index < num_bits;
}

proof fn lemma_zero_byte(s: u8)
    ensures
        (0u8 >> s) & 1u8 == 0u8,
{
    assert((0u8 >> s) & 1u8 == 0u8) by (bit_vector);
}

impl BloomFilter {
    /// An empty filter of `num_bits` bits and `num_hashes` hash functions.
    pub fn new(num_bits: usize, num_hashes: usize) -> (r: BloomFilter)
        ensures
            r@.num_bits == num_bits,
            r@.num_hashes == num_hashes,
            r@.bits == Seq::new(bytes_for(num_bits as u64) as nat, |i: int| 0u8),
            forall|j: int| 0 <= j < num_bits ==> !#[trigger] bit_of(r@.bits, j),
    {
        let num_bytes = num_bits / 8 + if num_bits % 8 == 0 { 0 } else { 1 };
        let bits: Vec<u8> = vec![0u8; num_bytes];
        assert(bits@ =~= Seq::new(bytes_for(num_bits as u64) as nat, |i: int| 0u8));
        let r = BloomFilter { bits, num_bits: num_bits as u64, num_hashes: num_hashes as u64 };
        assert forall|j: int| 0 <= j < num_bits implies !#[trigger] bit_of(r@.bits, j) by {
            lemma_byte_in_range(j as u64, num_bits as u64);
            lemma_zero_byte((j % 8) as u8);
        }
        r
    }

    /// An empty filter with `bits_per_key` bits for each of `expected_keys` keys.
    pub fn with_capacity(expected_keys: usize, bits_per_key: usize, num_hashes: usize) -> (r: BloomFilter)
        requires
            expected_keys * bits_per_key <= usize::MAX,
        ensures
            r@.num_bits == expected_keys * bits_per_key,
            r@.num_hashes == num_hashes,
            r@.bits == Seq::new(bytes_for(r@.num_bits) as nat, |i: int| 0u8),
            forall|j: int| 0 <= j < r@.num_bits ==> !#[trigger] bit_of(r@.bits, j),
    {
        let num_bits = expected_keys * bits_per_key;
        Self::new(num_bits, num_hashes)
    }

    /// An empty filter sized by default for `expected_keys` keys.
    pub fn default_for_keys(expected_keys: usize) -> (r: BloomFilter)
        requires
            expected_keys * DEFAULT_BITS_PER_KEY <= usize::MAX,
        ensures
            r@.num_bits == expected_keys * DEFAULT_BITS_PER_KEY,
            r@.num_hashes == DEFAULT_NUM_HASHES,
            r@.bits == Seq::new(bytes_for(r@.num_bits) as nat, |i: int| 0u8),
            forall|j: int| 0 <= j < r@.num_bits ==> !#[trigger] bit_of(r@.bits, j),
    {
        Self::with_capacity(expected_keys, DEFAULT_BITS_PER_KEY, DEFAULT_NUM_HASHES)
    }

    pub fn num_bits(&self) -> (r: u64)
        ensures
            r == self@.num_bits,
    {
        self.num_bits
    }

    pub fn num_hashes(&self) -> (r: u64)
        ensures
            r == self@.num_hashes,
    {
        self.num_hashes
    }

    /// The `seed`-th hash of `key`.
    fn hash(key: &[u8], seed: u64) -> (r: u64)
        ensures
            r == bloom_hash(key@, seed),
    {
        let mut h: u64 = FNV_OFFSET_BASIS ^ seed;
        let mut j: usize = 0;
        assert(key@.subrange(0, key@.len() as int) =~= key@);
        while j < key.len()
            invariant
                j <= key@.len(),
                bloom_hash(key@, seed) == fnv_fold(h, key@.subrange(j as int, key@.len() as int)),
            decreases key@.len() - j,
        {
            assert(key@.subrange(j as int, key@.len() as int).drop_first() =~= key@.subrange(j + 1, key@.len() as int));
            h = (h ^ (key[j] as u64)).wrapping_mul(FNV_PRIME);
            j = j + 1;
        }
        h
    }

    /// Sets bit `index`; a bit past the end of the array is left alone.
    fn set_bit(&mut self, index: u64)
        requires
            index < old(self)@.num_bits,
        ensures
            final(self)@.num_bits == old(self)@.num_bits,
            final(self)@.num_hashes == old(self)@.num_hashes,
            final(self)@.bits.len() == old(self)@.bits.len(),
            forall|j: int| 0 <= j < final(self)@.num_bits ==> #[trigger] bit_of(final(self)@.bits, j) == (j == index || bit_of(old(self)@.bits, j)),
    {
        let len = self.bits.len();
        if index / 8 >= len as u64 {
            return;
        }
        let byte_index = (index / 8) as usize;
        assert(byte_index == index / 8);
        let shift = (index % 8) as u8;
        let old_byte = self.bits[byte_index];
        self.bits.set(byte_index, old_byte | (1u8 << shift));
        assert forall|j: int| 0 <= j < self@.num_bits implies #[trigger] bit_of(self@.bits, j) == (j == index || bit_of(old(self)@.bits, j)) by {
            if j / 8 == byte_index {
                assert(j == index <==> j % 8 == shift) by (nonlinear_arith)
                    requires j / 8 == index as int / 8, shift == index as int % 8, j >= 0, index >= 0;
                lemma_set_bit_byte(old_byte, shift, (j % 8) as u8);
            } else {
                assert(j / 8 != index as int / 8);
                assert(j != index);
                if j / 8 < self@.bits.len() {
                    assert(self@.bits[j / 8] == old(self)@.bits[j / 8]);
                }
            }
        }
    }

    /// Bit `index`; a bit past the end of the array reads as set.
    fn get_bit(&self, index: u64) -> (r: bool)
        ensures
            r == bit_of(self@.bits, index as int),
    {
        let len = self.bits.len();
        if index / 8 >= len as u64 {
            return true;
        }
        let byte_index = (index / 8) as usize;
        assert(byte_index == index / 8);
        let shift = (index % 8) as u8;
        (self.bits[byte_index] >> shift) & 1u8 == 1u8
    }

    /// Adds `key`: sets its bits and no others. Afterwards it passes, and
    /// every key that passed still does.
    pub fn insert(&mut self, key: &[u8])
        ensures
            final(self)@.num_bits == old(self)@.num_bits,
            final(self)@.num_hashes == old(self)@.num_hashes,
            final(self)@.bits.len() == old(self)@.bits.len(),
            forall|j: int| 0 <= j < old(self)@.num_bits ==> #[trigger] bit_of(final(self)@.bits, j)
                == (bit_of(old(self)@.bits, j) || key_bit(key@, old(self)@.num_bits, old(self)@.num_hashes, j)),
            passes(final(self)@, key@),
            forall|j: int| 0 <= j < old(self)@.num_bits && #[trigger] bit_of(old(self)@.bits, j) ==> bit_of(final(self)@.bits, j),
    {
        if self.num_bits == 0 {
            return;
        }
        let ghost nb = self@.num_bits;
        let ghost nh = self@.num_hashes;
        let mut i: u64 = 0;
        while i < self.num_hashes
            invariant
                self@.num_bits == nb,
                self@.num_hashes == nh,
                nb == old(self)@.num_bits,
                nh == old(self)@.num_hashes,
                self@.bits.len() == old(self)@.bits.len(),
                nb > 0,
                i <= nh,
                forall|h: u64| h < i ==> #[trigger] bit_of(self@.bits, (bloom_hash(key@, h) % nb) as int),
                forall|j: int| 0 <= j < nb ==> #[trigger] bit_of(self@.bits, j)
                    == (bit_of(old(self)@.bits, j) || exists|h: u64| h < i && j == (bloom_hash(key@, h) % nb) as int),
            decreases nh - i,
        {
            let index = Self::hash(key, i) % self.num_bits;
            let ghost before = self@.bits;
            self.set_bit(index);
            assert forall|h: u64| h < i + 1 implies #[trigger] bit_of(self@.bits, (bloom_hash(key@, h) % nb) as int) by {
                let j = (bloom_hash(key@, h) % nb) as int;
                if h < i {
                    assert(bit_of(before, j));
                }
            }
            assert forall|j: int| 0 <= j < nb implies #[trigger] bit_of(self@.bits, j)
                == (bit_of(old(self)@.bits, j) || exists|h: u64| h < i + 1 && j == (bloom_hash(key@, h) % nb) as int) by {
                if j == index {
                    assert(i < i + 1 && j == (bloom_hash(key@, i) % nb) as int);
                }
                if exists|h: u64| h < i + 1 && j == (bloom_hash(key@, h) % nb) as int {
                    let h = choose|h: u64| h < i + 1 && j == (bloom_hash(key@, h) % nb) as int;
                    if h < i {
                        assert(bit_of(before, j));
                    }
                }
            }
            i = i + 1;
        }
        assert forall|j: int| 0 <= j < nb implies #[trigger] bit_of(self@.bits, j)
            == (bit_of(old(self)@.bits, j) || key_bit(key@, nb, nh, j)) by {
            if key_bit(key@, nb, nh, j) {
                let h = choose|h: u64| h < nh && j == (bloom_hash(key@, h) % nb) as int;
                assert(h < i);
            }
        }
    }

    /// False only if `key` was never inserted.
    pub fn might_contain(&self, key: &[u8]) -> (r: bool)
        ensures
            r == passes(self@, key@),
    {
        if self.num_bits == 0 {
            return true;
        }
        let mut i: u64 = 0;
        while i < self.num_hashes
            invariant
                self@.num_bits > 0,
                i <= self@.num_hashes,
                forall|h: u64| h < i ==> #[trigger] bit_of(self@.bits, (bloom_hash(key@, h) % self@.num_bits) as int),
            decreases self@.num_hashes - i,
        {
            let index = Self::hash(key, i) % self.num_bits;
            if !self.get_bit(index) {
                return false;
            }
            i = i + 1;
        }
        true
    }

    /// The filter's on-disk bytes.
    pub fn serialize(&self) -> (r: Vec<u8>)
        ensures
            r@ == encode_filter(self@),
    {
        let mut out: Vec<u8> = Vec::new();
        push_le(&mut out, self.num_bits);
        push_le(&mut out, self.num_hashes);
        append_bytes(&mut out, self.bits.as_slice());
        assert(out@ =~= encode_filter(self@));
        out
    }

    /// Reads a filter from its on-disk bytes: an error only when the 16-byte
    /// header is incomplete.
    pub fn deserialize(data: &[u8]) -> (r: Result<BloomFilter, Error>)
        ensures
            match r {
                Ok(f) => decode_filter(data@) == Some(f@),
                Err(e) => decode_filter(data@) is None && e.kind_of() == ErrorKind::InvalidData,
            },
            r is Ok <==> data@.len() >= 16,
    {
        if data.len() < 16 {
            return Err(invalid_data("Bloom filter data too short"));
        }
        let num_bits = read_le(data, 0);
        let num_hashes = read_le(data, 8);
        let bits = copy_range(data, 16, data.len());
        let f = BloomFilter { bits, num_bits, num_hashes };
        assert(f@ == decode_filter(data@)->0);
        Ok(f)
    }
}

/// A key that passes a filter still passes once more keys are inserted, since
/// inserting only sets bits: an inserted key passes from then on.
pub proof fn lemma_passes_monotone(a: BloomModel, b: BloomModel, key: Seq<u8>)
    requires
        passes(a, key),
        a.num_bits == b.num_bits,
        a.num_hashes == b.num_hashes,
        forall|j: int| 0 <= j < a.num_bits && #[trigger] bit_of(a.bits, j) ==> bit_of(b.bits, j),
    ensures
        passes(b, key),
{
    if a.num_bits > 0 {
        assert forall|i: u64| i < b.num_hashes implies #[trigger] bit_of(b.bits, (bloom_hash(key, i) % b.num_bits) as int) by {
            assert(bit_of(a.bits, (bloom_hash(key, i) % a.num_bits) as int));
        }
    }
}

/// Writing a filter out and reading it back gives the same filter: its size,
/// its number of hashes, its bits, and so which keys pass.
pub proof fn lemma_filter_round_trip(f: BloomModel)
    ensures
        decode_filter(encode_filter(f)) == Some(f),
        forall|key: Seq<u8>| passes(decode_filter(encode_filter(f))->0, key) == passes(f, key),
{
    let d = encode_filter(f);
    assert(d.subrange(0, 8) =~= le_bytes(f.num_bits));
    assert(d.subrange(8, 16) =~= le_bytes(f.num_hashes));
    lemma_le_round_trip(f.num_bits, d, 0);
    lemma_le_round_trip(f.num_hashes, d, 8);
    assert(d.subrange(16, d.len() as int) =~= f.bits);
}

} // verus!
