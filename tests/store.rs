use std::collections::BTreeMap;

use simple_lsm_db::bloom_filter_registry::{is_bloom_file, BloomFilterRegistry};
use simple_lsm_db::database::{Database, GetStep};
use simple_lsm_db::entry::Entry;
use simple_lsm_db::file_directory::FileDirectory;
use simple_lsm_db::index_entry::IndexEntry;
use simple_lsm_db::index_file::{parse_index, IndexFile};
use simple_lsm_db::index_file_registry::IndexFileRegistry;
use simple_lsm_db::response::Response;
use simple_lsm_db::segment_file_registry::SegmentFileRegistry;

/// A store whose directory is a map from file name to contents, driven as
/// the server drives the engine over real files.
struct MemStore {
    files: BTreeMap<Vec<u8>, Vec<u8>>,
    wal: Vec<u8>,
    db: Database,
}

impl MemStore {
    fn open(files: BTreeMap<Vec<u8>, Vec<u8>>, wal: Vec<u8>, max_table_size: Option<usize>) -> MemStore {
        let names: Vec<Vec<u8>> = files.keys().cloned().collect();
        let blooms: Vec<(Vec<u8>, Vec<u8>)> = files
            .iter()
            .filter(|(name, _)| is_bloom_file(name))
            .map(|(n, d)| (n.clone(), d.clone()))
            .collect();
        let indexes: Vec<(Vec<u8>, Vec<u8>)> = files
            .iter()
            .filter(|(name, _)| IndexFile::is_index_file(name))
            .map(|(n, d)| (n.clone(), d.clone()))
            .collect();
        let directory = FileDirectory::new(
            SegmentFileRegistry::new(&names),
            BloomFilterRegistry::new(&blooms),
            IndexFileRegistry::new(&indexes),
        );
        let db = Database::new(directory, &wal, max_table_size);
        MemStore { files, wal, db }
    }

    fn fresh(max_table_size: Option<usize>) -> MemStore {
        MemStore::open(BTreeMap::new(), Vec::new(), max_table_size)
    }

    fn reopen(&self, max_table_size: Option<usize>) -> MemStore {
        MemStore::open(self.files.clone(), self.wal.clone(), max_table_size)
    }

    fn flush(&mut self) {
        let flush = self.db.prepare_flush().unwrap();
        self.files.insert(flush.segment_path().clone(), flush.segment().clone());
        self.files.insert(flush.bloom_path().clone(), flush.bloom().clone());
        if !flush.index().is_empty() {
            self.files.insert(flush.index_path().clone(), flush.index().clone());
        }
        self.db.commit_flush(flush).unwrap();
        self.wal.clear();
    }

    fn set(&mut self, key: &[u8], value: &[u8]) {
        let record = Entry::KeyValue { key: key.to_vec(), value: value.to_vec() }.encode();
        self.wal.extend_from_slice(&record);
        if self.db.set(key, value) {
            self.flush();
        }
    }

    fn delete(&mut self, key: &[u8]) {
        let record = Entry::Tombstone { key: key.to_vec() }.encode();
        self.wal.extend_from_slice(&record);
        if self.db.delete(key) {
            self.flush();
        }
    }

    fn get(&self, key: &[u8]) -> Option<Vec<u8>> {
        let mut step = self.db.get(key);
        loop {
            match step {
                GetStep::Done(value) => return value,
                GetStep::Read { position, path, start } => {
                    let data = &self.files[&path][start as usize..];
                    step = self.db.continue_get(key, position, data).unwrap();
                }
            }
        }
    }
}

fn names(store: &MemStore) -> Vec<String> {
    store.files.keys().map(|n| String::from_utf8(n.clone()).unwrap()).collect()
}

#[test]
fn test_large_scale() {
    let mut db = MemStore::fresh(Some(1000));

    for i in 0..=10_000 {
        db.set(format!("key_{}", i).as_bytes(), format!("value_{}", i).as_bytes());
    }

    let result1 = db.get(b"key_0");
    assert_eq!(result1, Some(b"value_0".to_vec()));
    let result2 = db.get(b"key_5000");
    assert_eq!(result2, Some(b"value_5000".to_vec()));
    let result3 = db.get(b"key_10000");
    assert_eq!(result3, Some(b"value_10000".to_vec()));
    let result4 = db.get(b"key_10001");
    assert_eq!(result4, None);
}

#[test]
fn insert_multiple_records_into_multiple_files() {
    let mut db = MemStore::fresh(Some(5));
    db.set(b"key3", b"value3");
    db.set(b"key1", b"value1");
    db.set(b"key4", b"value4");
    db.set(b"key2", b"value2");

    assert!(db.files.is_empty());
    assert_eq!(db.wal, b"key3 value3\nkey1 value1\nkey4 value4\nkey2 value2\n".to_vec());

    db.set(b"key5", b"value5");

    assert_eq!(names(&db), vec!["segment_0.bf", "segment_0.idx", "segment_0.sst"]);
    assert_eq!(db.wal, b"".to_vec());
    assert_eq!(
        db.files[b"segment_0.sst".as_slice()],
        b"key1 value1\nkey2 value2\nkey3 value3\nkey4 value4\nkey5 value5\n".to_vec()
    );
    assert_eq!(
        db.files[b"segment_0.idx".as_slice()],
        [b"key1".as_slice(), &0u64.to_le_bytes(), b"\n".as_slice()].concat()
    );
}

#[test]
fn fresh_store_set_and_get() {
    let mut db = MemStore::fresh(None);
    db.set(b"k1", b"v1");
    assert_eq!(Response::Success.encode(), b"OK\n".to_vec());
    assert_eq!(Response::Value(db.get(b"k1")).encode(), b"OK: v1\n".to_vec());
    assert_eq!(Response::Value(db.get(b"k2")).encode(), b"OK:\n".to_vec());
}

#[test]
fn later_set_wins() {
    let mut db = MemStore::fresh(None);
    db.set(b"k", b"a");
    db.set(b"k", b"b");
    assert_eq!(Response::Value(db.get(b"k")).encode(), b"OK: b\n".to_vec());
}

#[test]
fn delete_hides_value() {
    let mut db = MemStore::fresh(None);
    db.set(b"k", b"v");
    db.delete(b"k");
    assert_eq!(Response::Value(db.get(b"k")).encode(), b"OK:\n".to_vec());
}

#[test]
fn set_then_get_across_flushes() {
    let mut db = MemStore::fresh(Some(3));
    db.set(b"target", b"first");
    for i in 0..20 {
        db.set(format!("other_{}", i).as_bytes(), b"x");
        assert_eq!(db.get(b"target"), Some(b"first".to_vec()));
    }
    db.set(b"target", b"second");
    for i in 0..20 {
        db.delete(format!("other_{}", i).as_bytes());
        assert_eq!(db.get(b"target"), Some(b"second".to_vec()));
    }
}

#[test]
fn delete_then_get_across_flushes() {
    let mut db = MemStore::fresh(Some(2));
    db.set(b"k", b"v");
    db.set(b"a", b"1");
    db.set(b"b", b"2");
    db.delete(b"k");
    for i in 0..9 {
        db.set(format!("n{}", i).as_bytes(), b"y");
        assert_eq!(db.get(b"k"), None);
    }
    assert_eq!(db.get(b"a"), Some(b"1".to_vec()));
}

#[test]
fn flush_keeps_answers() {
    let mut db = MemStore::fresh(Some(100));
    db.set(b"a", b"1");
    db.set(b"b", b"2");
    db.delete(b"a");
    db.set(b"c", b"3");
    let keys: [&[u8]; 4] = [b"a", b"b", b"c", b"d"];
    let before: Vec<Option<Vec<u8>>> = keys.iter().map(|k| db.get(k)).collect();
    db.flush();
    let after: Vec<Option<Vec<u8>>> = keys.iter().map(|k| db.get(k)).collect();
    assert_eq!(before, after);
    assert_eq!(after, vec![None, Some(b"2".to_vec()), Some(b"3".to_vec()), None]);
}

#[test]
fn reopening_replays_the_log() {
    let mut db = MemStore::fresh(Some(4));
    db.set(b"x", b"1");
    db.set(b"y", b"2");
    db.set(b"z", b"3");
    db.set(b"w", b"4");
    db.set(b"x", b"5");
    db.delete(b"y");
    let keys: [&[u8]; 5] = [b"x", b"y", b"z", b"w", b"v"];
    let before: Vec<Option<Vec<u8>>> = keys.iter().map(|k| db.get(k)).collect();
    let reopened = db.reopen(Some(4));
    let after: Vec<Option<Vec<u8>>> = keys.iter().map(|k| reopened.get(k)).collect();
    assert_eq!(before, after);
    assert_eq!(after[0], Some(b"5".to_vec()));
    assert_eq!(after[1], None);
}

#[test]
fn log_replay_skips_malformed_lines() {
    let wal = b"a 1\n\n b\nc\nd 4".to_vec();
    let db = MemStore::open(BTreeMap::new(), wal, None);
    assert_eq!(db.get(b"a"), Some(b"1".to_vec()));
    assert_eq!(db.get(b"c"), None);
    assert_eq!(db.get(b"d"), Some(b"4".to_vec()));
    assert_eq!(db.db.mem_table().len(), 3);
}

#[test]
fn segments_are_sorted_and_numbered_densely() {
    let mut db = MemStore::fresh(Some(10));
    for i in (0..45).rev() {
        db.set(format!("k{:03}", i).as_bytes(), format!("v{}", i).as_bytes());
    }
    let mut numbers = Vec::new();
    for (name, data) in &db.files {
        let name = String::from_utf8(name.clone()).unwrap();
        if let Some(stem) = name.strip_suffix(".sst") {
            numbers.push(stem["segment_".len()..].parse::<usize>().unwrap());
            let keys: Vec<&[u8]> = data
                .split(|&b| b == b'\n')
                .filter(|l| !l.is_empty())
                .map(|l| l.split(|&b| b == b' ').next().unwrap())
                .collect();
            assert!(keys.windows(2).all(|w| w[0] < w[1]));
        }
    }
    numbers.sort();
    assert_eq!(numbers, vec![0, 1, 2, 3]);
    let reopened = db.reopen(Some(10));
    assert_eq!(reopened.db.file_directory().segment_files().len(), 4);
    assert_eq!(reopened.db.file_directory().segment_files()[0].number(), 3);
    assert_eq!(reopened.get(b"k000"), Some(b"v0".to_vec()));
    assert_eq!(reopened.get(b"k044"), Some(b"v44".to_vec()));
}

#[test]
fn index_offsets_point_at_their_lines() {
    let mut db = MemStore::fresh(Some(250));
    for i in 0..250 {
        db.set(format!("key_{:04}", i).as_bytes(), b"value");
    }
    let segment = db.files[b"segment_0.sst".as_slice()].clone();
    let index = parse_index(&db.files[b"segment_0.idx".as_slice()]).unwrap();
    assert_eq!(index.len(), 3);
    for entry in &index {
        let line = segment[entry.offset() as usize..].split(|&b| b == b'\n').next().unwrap();
        assert_eq!(line.split(|&b| b == b' ').next().unwrap(), entry.key());
    }
    assert_eq!(index[1].key(), b"key_0100");
    assert_eq!(index[1].offset(), 100 * 15);
    assert_eq!(db.get(b"key_0150"), Some(b"value".to_vec()));
    assert_eq!(db.get(b"key_0249"), Some(b"value".to_vec()));
    assert_eq!(db.get(b"key_02491"), None);
}

#[test]
fn index_entry_line_format() {
    let entry = IndexEntry::new(b"key1".to_vec(), 258);
    let bytes = entry.encode();
    assert_eq!(bytes, [b"key1".as_slice(), &258u64.to_le_bytes(), b"\n".as_slice()].concat());
    let back = IndexEntry::try_from(&bytes[..bytes.len() - 1]).unwrap();
    assert_eq!(back.key(), b"key1");
    assert_eq!(back.offset(), 258);
    assert!(IndexEntry::try_from(b"short".as_slice()).is_err());
}

#[test]
fn unreadable_index_falls_back_to_full_scan() {
    let mut db = MemStore::fresh(Some(3));
    db.set(b"a", b"1");
    db.set(b"b", b"2");
    db.set(b"c", b"3");
    let mut files = db.files.clone();
    files.insert(b"segment_0.idx".to_vec(), b"bad\n".to_vec());
    let reopened = MemStore::open(files, Vec::new(), Some(3));
    assert_eq!(reopened.get(b"b"), Some(b"2".to_vec()));
}

#[test]
fn missing_sidecars_are_tolerated() {
    let mut files = BTreeMap::new();
    files.insert(b"segment_0.sst".to_vec(), b"a 1\nb\nc 3\n".to_vec());
    let db = MemStore::open(files, Vec::new(), None);
    assert_eq!(db.get(b"a"), Some(b"1".to_vec()));
    assert_eq!(db.get(b"b"), None);
    assert_eq!(db.get(b"c"), Some(b"3".to_vec()));
}

#[test]
fn malformed_segment_line_fails_lookup() {
    let mut files = BTreeMap::new();
    files.insert(b"segment_0.sst".to_vec(), b" 1\nz 3\n".to_vec());
    let db = MemStore::open(files, Vec::new(), None);
    let step = db.db.get(b"z");
    match step {
        GetStep::Read { position, path, start } => {
            let data = &db.files[&path][start as usize..];
            assert!(db.db.continue_get(b"z", position, data).is_err());
        }
        GetStep::Done(_) => panic!("expected a read"),
    }
}

#[test]
fn entry_round_trip() {
    let entry = Entry::KeyValue { key: b"key".to_vec(), value: b"value".to_vec() };
    let line = entry.encode();
    assert_eq!(line, b"key value\n".to_vec());
    match Entry::decode(&line[..line.len() - 1]) {
        Some(Entry::KeyValue { key, value }) => {
            assert_eq!(key, b"key".to_vec());
            assert_eq!(value, b"value".to_vec());
        }
        other => panic!("unexpected {:?}", other),
    }
    let tomb = Entry::Tombstone { key: b"gone".to_vec() }.encode();
    assert_eq!(tomb, b"gone\n".to_vec());
    assert!(matches!(Entry::decode(b"gone"), Some(Entry::Tombstone { .. })));
    assert!(Entry::decode(b" value").is_none());
}
