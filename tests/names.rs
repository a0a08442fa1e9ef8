use simple_lsm_db::error::ErrorKind;
use simple_lsm_db::thread_pool::check_pool_size;
use simple_lsm_db::file_name::{parse_file_name, segment_file_name};
use simple_lsm_db::index_file::IndexFile;
use simple_lsm_db::mem_table::MemTable;
use simple_lsm_db::segment_file::SegmentFile;
use simple_lsm_db::segment_file_registry::SegmentFileRegistry;

#[test]
fn segment_names() {
    assert_eq!(segment_file_name(0, b"sst"), b"segment_0.sst".to_vec());
    assert_eq!(segment_file_name(1234, b"idx"), b"segment_1234.idx".to_vec());
    assert_eq!(parse_file_name(b"segment_42.bf"), Some((42, b"bf".to_vec())));
    assert_eq!(parse_file_name(b"segment_042.bf"), None);
    assert_eq!(parse_file_name(b"segment_.bf"), None);
    assert_eq!(parse_file_name(b"wal.log"), None);
    assert_eq!(parse_file_name(b"segment_99999999999999999999.sst"), None);
}

#[test]
fn segment_and_index_files() {
    assert!(SegmentFile::is_segment_file(b"segment_3.sst"));
    assert!(!SegmentFile::is_segment_file(b"segment_3.idx"));
    assert!(IndexFile::is_index_file(b"segment_3.idx"));
    let file = SegmentFile::from_path(b"segment_3.sst".to_vec()).unwrap();
    assert_eq!(file.number(), 3);
    assert_eq!(file.path(), &b"segment_3.sst".to_vec());
    assert!(SegmentFile::from_path(b"wal.log".to_vec()).is_err());
    assert!(IndexFile::from_path(b"segment_3.idx".to_vec()).is_ok());
    assert!(IndexFile::from_path(b"segment_3.sst".to_vec()).is_err());
}

#[test]
fn registry_orders_newest_first() {
    let names = vec![
        b"segment_1.sst".to_vec(),
        b"wal.log".to_vec(),
        b"segment_0.sst".to_vec(),
        b"segment_2.sst".to_vec(),
        b"segment_2.bf".to_vec(),
    ];
    let mut registry = SegmentFileRegistry::new(&names);
    let numbers: Vec<usize> = registry.files().iter().map(|f| f.number()).collect();
    assert_eq!(numbers, vec![2, 1, 0]);
    assert_eq!(registry.store_new(), b"segment_3.sst".to_vec());
    assert_eq!(registry.files()[0].number(), 3);
    assert!(registry.get(1).is_some());
    assert!(registry.get(7).is_none());
}

#[test]
fn memtable_orders_and_flags_flush() {
    let mut table = MemTable::new(Some(3));
    table.insert(b"b", b"2");
    table.insert(b"a", b"1");
    assert!(!table.should_flush());
    table.remove(b"c");
    assert!(table.should_flush());
    assert_eq!(table.get(b"a"), Some(&Some(b"1".to_vec())));
    assert_eq!(table.get(b"c"), Some(&None));
    assert_eq!(table.get(b"d"), None);
    let keys: Vec<Vec<u8>> = table.iter().iter().map(|(k, _)| k.clone()).collect();
    assert_eq!(keys, vec![b"a".to_vec(), b"b".to_vec(), b"c".to_vec()]);
    table.insert(b"a", b"9");
    assert_eq!(table.len(), 3);
    table.clear();
    assert_eq!(table.len(), 0);
    assert!(!MemTable::new(None).should_flush());
}

#[test]
fn pool_size_bounds() {
    assert_eq!(check_pool_size(1).unwrap(), 1);
    assert_eq!(check_pool_size(10).unwrap(), 10);
    assert_eq!(check_pool_size(0).unwrap_err().kind(), ErrorKind::InvalidInput);
    assert_eq!(check_pool_size(11).unwrap_err().kind(), ErrorKind::InvalidInput);
}
