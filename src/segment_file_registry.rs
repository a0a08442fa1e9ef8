use vstd::prelude::*;
use crate::file_name::{lemma_name_round_trip, parse_name, segment_file_name, segment_name};
use crate::segment_file::{segment_ext, segment_extension, SegmentFile};

verus! {

/// The segments of a directory, newest (highest number) first.
pub struct SegmentFileRegistry {
    segment_files: Vec<SegmentFile>,
}

impl View for SegmentFileRegistry {
    /// The segment numbers, newest first.
    type V = Seq<nat>;

    closed spec fn view(&self) -> Seq<nat> {
        self.segment_files@.map_values(|f: SegmentFile| f.number_of())
    }
}

/// The number `name` gives a segment, if it is a segment's name.
pub open spec fn number_in(name: Seq<u8>) -> Option<nat> {
    match parse_name(name) {
        Some((n, ext)) => if ext == segment_ext() {
            Some(n)
        } else {
            None
        },
        None => None,
    }
}

/// Segment numbers strictly descending: newest first, each once.
pub open spec fn newest_first(numbers: Seq<nat>) -> bool {
    forall|i: int, j: int| 0 <= i < j < numbers.len() ==> #[trigger] numbers[i] > #[trigger] numbers[j]
}

impl SegmentFileRegistry {
    pub closed spec fn wf(&self) -> bool {
        &&& forall|i: int| 0 <= i < self.segment_files@.len() ==> (#[trigger] self.segment_files@[i]).wf()
        &&& forall|i: int, j: int| 0 <= i < j < self@.len() ==> #[trigger] self@[i] > #[trigger] self@[j]
    }

    /// The numbers present are `0, 1, …, K−1`.
    pub open spec fn dense(&self) -> bool {
        forall|n: nat| self@.contains(n) <==> n < self@.len()
    }

    proof fn lemma_view_at(&self, i: int)
        requires
            0 <= i < self.segment_files@.len(),
        ensures
            self@[i] == self.segment_files@[i].number_of(),
            self@.len() == self.segment_files@.len(),
    {
    }

    /// Adds `file` at its place by number; nothing if its number is present.
    fn insert_file(&mut self, file: SegmentFile)
        requires
            old(self).wf(),
            file.wf(),
        ensures
            final(self).wf(),
            forall|n: nat| final(self)@.contains(n) <==> (old(self)@.contains(n) || n == file.number_of()),
            old(self)@.contains(file.number_of()) ==> final(self)@ == old(self)@,
            !old(self)@.contains(file.number_of()) ==> final(self)@.len() == old(self)@.len() + 1,
            (forall|i: int| 0 <= i < old(self)@.len() ==> old(self)@[i] < file.number_of())
                ==> final(self)@ == seq![file.number_of()] + old(self)@,
    {
        let ghost old_v = self@;
        let n = file.number();
        let mut p: usize = 0;
        while p < self.segment_files.len() && self.segment_files[p].number() > n
            invariant
                self.wf(),
                self@ == old_v,
                p <= self.segment_files@.len(),
                forall|i: int| 0 <= i < p ==> old_v[i] > n,
            decreases self.segment_files@.len() - p,
        {
            proof { self.lemma_view_at(p as int); }
            p = p + 1;
        }
        if p < self.segment_files.len() && self.segment_files[p].number() == n {
            proof { self.lemma_view_at(p as int); }
            return;
        }
        proof {
            if p < old_v.len() {
                self.lemma_view_at(p as int);
            }
            assert forall|i: int| p <= i < old_v.len() implies old_v[i] < n by {
                if i > p {
                    assert(old_v[p as int] > old_v[i]);
                }
            }
        }
        let ghost fv = file.number_of();
        self.segment_files.insert(p, file);
        assert(self@ =~= old_v.insert(p as int, fv));
        assert(forall|i: int| 0 <= i < old_v.len() ==> old_v[i] != fv);
        assert forall|m: nat| self@.contains(m) <==> (old_v.contains(m) || m == fv) by {
            if self@.contains(m) {
                let i = choose|i: int| 0 <= i < self@.len() && self@[i] == m;
                if i < p {
                    assert(old_v[i] == m);
                } else if i > p {
                    assert(old_v[i - 1] == m);
                }
            }
            if old_v.contains(m) {
                let i = choose|i: int| 0 <= i < old_v.len() && old_v[i] == m;
                if i < p {
                    assert(self@[i] == m);
                } else {
                    assert(self@[i + 1] == m);
                }
            }
            if m == fv {
                assert(self@[p as int] == m);
            }
        }
        proof {
            if forall|i: int| 0 <= i < old_v.len() ==> old_v[i] < fv {
                if old_v.len() > 0 {
                    assert(!(old_v[0] > n));
                }
                assert(p == 0);
                assert(self@ =~= seq![fv] + old_v);
            }
        }
    }

    /// The registry of the segments among the files `names` of a directory.
    pub fn new(names: &Vec<Vec<u8>>) -> (r: SegmentFileRegistry)
        ensures
            r.wf(),
            newest_first(r@),
            forall|n: nat| r@.contains(n) <==> exists|j: int| 0 <= j < names@.len() && number_in(#[trigger] names@[j]@) == Some(n),
    {
        let mut registry = SegmentFileRegistry { segment_files: Vec::new() };
        let mut j: usize = 0;
        while j < names.len()
            invariant
                registry.wf(),
                j <= names@.len(),
                forall|n: nat| registry@.contains(n) <==> exists|k: int| 0 <= k < j && number_in(#[trigger] names@[k]@) == Some(n),
            decreases names@.len() - j,
        {
            let name = names[j].clone();
            assert(name@ == names@[j as int]@);
            match SegmentFile::from_path(name) {
                Ok(file) => {
                    let ghost before = registry@;
                    registry.insert_file(file);
                    assert forall|n: nat| registry@.contains(n) <==> exists|k: int| 0 <= k < j + 1 && number_in(#[trigger] names@[k]@) == Some(n) by {
                        if exists|k: int| 0 <= k < j + 1 && number_in(#[trigger] names@[k]@) == Some(n) {
                            let k = choose|k: int| 0 <= k < j + 1 && number_in(#[trigger] names@[k]@) == Some(n);
                            if k < j {
                                assert(before.contains(n));
                            }
                        }
                    }
                },
                Err(_) => {
                    assert(number_in(names@[j as int]@) is None);
                    assert forall|n: nat| registry@.contains(n) <==> exists|k: int| 0 <= k < j + 1 && number_in(#[trigger] names@[k]@) == Some(n) by {
                        if exists|k: int| 0 <= k < j + 1 && number_in(#[trigger] names@[k]@) == Some(n) {
                            let k = choose|k: int| 0 <= k < j + 1 && number_in(#[trigger] names@[k]@) == Some(n);
                            assert(k != j);
                        }
                    }
                },
            }
            j = j + 1;
        }
        registry
    }

    /// The number the next segment gets: the count of segments present.
    pub fn next_number(&self) -> (r: usize)
        ensures
            r == self@.len(),
    {
        self.segment_files.len()
    }

    /// Records a new segment, numbered by the count of segments present, as
    /// the newest; returns its file name.
    pub fn store_new(&mut self) -> (r: Vec<u8>)
        requires
            old(self).wf(),
            old(self)@.len() < usize::MAX,
        ensures
            final(self).wf(),
            newest_first(final(self)@),
            r@ == segment_name(old(self)@.len(), segment_ext()),
            forall|n: nat| final(self)@.contains(n) <==> (old(self)@.contains(n) || n == old(self)@.len()),
            old(self).dense() ==> final(self).dense() && final(self)@ == seq![old(self)@.len()] + old(self)@,
    {
        let number = self.segment_files.len();
        let sst = segment_extension();
        let name = segment_file_name(number, sst.as_slice());
        proof { lemma_name_round_trip(number as nat, sst@); }
        let file = SegmentFile::from_path(name.clone());
        match file {
            Ok(f) => {
                let ghost before = self@;
                assert(f.number_of() == number);
                self.insert_file(f);
                proof {
                    if old(self).dense() {
                        assert forall|i: int| 0 <= i < before.len() implies before[i] < number by {
                            assert(before.contains(before[i]));
                        }
                        assert(!before.contains(number as nat));
                        assert forall|n: nat| self@.contains(n) <==> n < self@.len() by {
                            if n < before.len() {
                                assert(before.contains(n));
                            }
                        }
                    }
                }
            },
            Err(_) => {
                assert(false);
            },
        }
        name
    }

    /// The segment numbered `number`.
    pub fn get(&self, number: usize) -> (r: Option<&SegmentFile>)
        requires
            self.wf(),
        ensures
            match r {
                Some(f) => f.wf() && f.number_of() == number && self@.contains(number as nat),
                None => !self@.contains(number as nat),
            },
    {
        let mut i: usize = 0;
        while i < self.segment_files.len()
            invariant
                self.wf(),
                i <= self@.len(),
                forall|k: int| 0 <= k < i ==> self@[k] != number,
            decreases self@.len() - i,
        {
            proof { self.lemma_view_at(i as int); }
            if self.segment_files[i].number() == number {
                assert(self@[i as int] == number);
                return Some(&self.segment_files[i]);
            }
            i = i + 1;
        }
        None
    }

    /// The segments, newest first.
    pub fn files(&self) -> (r: &[SegmentFile])
        requires
            self.wf(),
        ensures
            r@.map_values(|f: SegmentFile| f.number_of()) == self@,
            forall|i: int| 0 <= i < r@.len() ==> (#[trigger] r@[i]).wf(),
    {
        self.segment_files.as_slice()
    }
}

/// Segment numbering stays dense: recording a new segment in a registry whose
/// numbers are `0..K` leaves numbers `0..K+1`, the new one newest.
pub proof fn lemma_numbering_dense(before: SegmentFileRegistry, after: SegmentFileRegistry)
    requires
        before.dense(),
        after@ == seq![before@.len()] + before@,
    ensures
        after.dense(),
{
    assert forall|n: nat| after@.contains(n) <==> n < after@.len() by {
        if after@.contains(n) {
            let i = choose|i: int| 0 <= i < after@.len() && after@[i] == n;
            if i > 0 {
                assert(before@.contains(after@[i]));
            }
        }
        if n < before@.len() {
            assert(before@.contains(n));
            let i = choose|i: int| 0 <= i < before@.len() && before@[i] == n;
            assert(after@[i + 1] == n);
        } else if n == before@.len() {
            assert(after@[0] == n);
        }
    }
}

} // verus!
