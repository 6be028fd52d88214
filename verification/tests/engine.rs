use kvs::codec::{decode_entry, decode_stream_front, encode_entry, frame_rm_record, frame_set_record, LogEntry};
use kvs::index::{Index, LogPosition};
use kvs::kvs_engine::{rebuild_map, KvStore, MetaData, Persist, COMPACT_NUM_THRESHOLD};
use kvs::KvsError;

fn text(s: &str) -> String {
    s.to_string()
}

fn reopened(store: &KvStore) -> KvStore {
    let metadata = MetaData {
        store_path: store.metadata().store_path.clone(),
        cur_file_end: store.metadata().cur_file_end,
        since_last_compact_log_num: store.metadata().since_last_compact_log_num,
    };
    match KvStore::open(text("dir"), Some(metadata), store.log().clone()) {
        Ok(store) => store,
        Err(_) => panic!("the log of a store must open again"),
    }
}

fn value(store: &KvStore, key: &str) -> Option<String> {
    match store.get(text(key)) {
        Ok(found) => found,
        Err(_) => panic!("get failed"),
    }
}

#[test]
fn it_works() {
    assert_eq!(2 + 2, 4);
}

#[test]
fn set_then_get_then_reopen() {
    let mut store = match KvStore::open(text("dir"), None, Vec::new()) {
        Ok(store) => store,
        Err(_) => panic!("an empty directory must open"),
    };
    assert!(store.set(text("a"), text("1")).is_ok());
    assert_eq!(value(&store, "a"), Some(text("1")));
    let again = reopened(&store);
    assert_eq!(value(&again, "a"), Some(text("1")));
    assert_eq!(again.len(), 1);
}

#[test]
fn overwrite_remove_and_remove_again() {
    let mut store = KvStore::new(text("dir"));
    assert!(store.set(text("a"), text("1")).is_ok());
    assert!(store.set(text("a"), text("2")).is_ok());
    assert_eq!(value(&store, "a"), Some(text("2")));
    assert!(store.remove(text("a")).is_ok());
    assert_eq!(value(&store, "a"), None);
    match store.remove(text("a")) {
        Err(KvsError::KeyNotFound(key)) => assert_eq!(key, "a"),
        _ => panic!("expected KeyNotFound"),
    }
}

#[test]
fn a_thousand_keys_survive_compaction_and_reopening() {
    let mut store = KvStore::new(text("dir"));
    let mut written: usize = 0;
    for i in 1..1000 {
        assert!(store.set(format!("k{}", i), format!("v{}", i)).is_ok());
        written += format!("{{\"Set\":{{\"key\":\"k{}\",\"value\":\"v{}\"}}}}", i, i).len();
    }
    assert!(store.metadata().since_last_compact_log_num <= COMPACT_NUM_THRESHOLD);
    assert_eq!(store.metadata().since_last_compact_log_num, 999 - 513);
    assert_eq!(store.log().len(), written);
    for i in 1..1000 {
        assert_eq!(value(&store, &format!("k{}", i)), Some(format!("v{}", i)));
    }
    let again = reopened(&store);
    for i in 1..1000 {
        assert_eq!(value(&again, &format!("k{}", i)), Some(format!("v{}", i)));
    }
}

#[test]
fn compaction_reclaims_overwritten_records() {
    let mut store = KvStore::new(text("dir"));
    for i in 0..513 {
        assert!(store.set(text("k"), format!("{}", i)).is_ok());
    }
    assert_eq!(store.metadata().since_last_compact_log_num, 0);
    assert_eq!(store.log().as_slice(), "{\"Set\":{\"key\":\"k\",\"value\":\"512\"}}".as_bytes());
    assert_eq!(store.metadata().cur_file_end, 33);
    assert_eq!(store.len(), 1);
    assert_eq!(value(&store, "k"), Some(text("512")));
}

#[test]
fn compaction_drops_removed_keys() {
    let mut store = KvStore::new(text("dir"));
    assert!(store.set(text("gone"), text("x")).is_ok());
    assert!(store.set(text("kept"), text("y")).is_ok());
    assert!(store.remove(text("gone")).is_ok());
    assert!(store.data.compact().is_ok());
    assert_eq!(store.log().as_slice(), "{\"Set\":{\"key\":\"kept\",\"value\":\"y\"}}".as_bytes());
    assert_eq!(value(&store, "kept"), Some(text("y")));
    assert_eq!(value(&store, "gone"), None);
    assert_eq!(store.metadata().cur_file_end, 34);
}

#[test]
fn compaction_keeps_every_answer() {
    let mut store = KvStore::new(text("dir"));
    for i in 0..40 {
        assert!(store.set(format!("k{}", i % 7), format!("v{}", i)).is_ok());
    }
    assert!(store.remove(text("k3")).is_ok());
    let before: Vec<Option<String>> = (0..7).map(|i| value(&store, &format!("k{}", i))).collect();
    assert!(store.data.compact().is_ok());
    let after: Vec<Option<String>> = (0..7).map(|i| value(&store, &format!("k{}", i))).collect();
    assert_eq!(before, after);
    assert_eq!(store.metadata().cur_file_end as usize, store.log().len());
    assert_eq!(store.len(), 6);
}

#[test]
fn set_twice_answers_like_set_once() {
    let mut once = KvStore::new(text("dir"));
    let mut twice = KvStore::new(text("dir"));
    assert!(once.set(text("k"), text("v")).is_ok());
    assert!(twice.set(text("k"), text("v")).is_ok());
    assert!(twice.set(text("k"), text("v")).is_ok());
    assert_eq!(value(&once, "k"), value(&twice, "k"));
    assert_eq!(once.len(), twice.len());
    assert_eq!(twice.log().len(), 2 * once.log().len());
}

#[test]
fn last_write_wins_over_a_mixed_sequence() {
    let mut store = KvStore::new(text("dir"));
    assert!(store.set(text("a"), text("1")).is_ok());
    assert!(store.set(text("b"), text("2")).is_ok());
    assert!(store.remove(text("a")).is_ok());
    assert!(store.set(text("a"), text("3")).is_ok());
    assert!(store.set(text("b"), text("4")).is_ok());
    assert!(store.remove(text("b")).is_ok());
    assert_eq!(value(&store, "a"), Some(text("3")));
    assert_eq!(value(&store, "b"), None);
    assert_eq!(value(&store, "c"), None);
    let again = reopened(&store);
    assert_eq!(value(&again, "a"), Some(text("3")));
    assert_eq!(value(&again, "b"), None);
}

#[test]
fn empty_key_and_empty_value_are_legal() {
    let mut store = KvStore::new(text("dir"));
    assert!(store.set(text(""), text("")).is_ok());
    assert_eq!(value(&store, ""), Some(text("")));
    assert_eq!(store.log().as_slice(), "{\"Set\":{\"key\":\"\",\"value\":\"\"}}".as_bytes());
    assert!(store.remove(text("")).is_ok());
    assert_eq!(value(&store, ""), None);
}

#[test]
fn a_value_of_a_mebibyte_is_legal() {
    let mut store = KvStore::new(text("dir"));
    let big = "x".repeat(1 << 20);
    assert!(store.set(text("big"), big.clone()).is_ok());
    assert_eq!(value(&store, "big"), Some(big));
    assert_eq!(store.metadata().cur_file_end, (1 << 20) + 32);
}

#[test]
fn remove_of_an_unbound_key_appends_nothing() {
    let mut store = KvStore::new(text("dir"));
    assert!(store.set(text("a"), text("1")).is_ok());
    let log = store.log().clone();
    assert!(matches!(store.remove(text("b")), Err(KvsError::KeyNotFound(_))));
    assert_eq!(store.log(), &log);
    assert_eq!(store.metadata().cur_file_end as usize, log.len());
    assert_eq!(store.metadata().since_last_compact_log_num, 1);
}

#[test]
fn a_directory_without_metadata_opens_empty() {
    let store = match KvStore::open(text("dir"), None, Vec::new()) {
        Ok(store) => store,
        Err(_) => panic!("must open"),
    };
    assert_eq!(store.len(), 0);
    assert_eq!(store.metadata().cur_file_end, 0);
    assert_eq!(store.metadata().since_last_compact_log_num, 0);
    assert_eq!(store.metadata().store_path, "dir");
    assert_eq!(value(&store, "a"), None);
}

#[test]
fn a_log_of_another_length_is_refused() {
    let mut store = KvStore::new(text("dir"));
    assert!(store.set(text("a"), text("1")).is_ok());
    let metadata = MetaData { store_path: text("dir"), cur_file_end: 5, since_last_compact_log_num: 1 };
    assert!(matches!(
        KvStore::open(text("dir"), Some(metadata), store.log().clone()),
        Err(KvsError::RecordError())
    ));
}

#[test]
fn a_truncated_log_is_refused() {
    let log = "{\"Set\":{\"key\":\"a\",\"value\":\"1\"}}{\"Set\":{\"key\":\"b\"".as_bytes().to_vec();
    let metadata = MetaData { store_path: text("dir"), cur_file_end: log.len() as u64, since_last_compact_log_num: 2 };
    assert!(matches!(KvStore::open(text("dir"), Some(metadata), log.clone()), Err(KvsError::RecordError())));
    assert!(matches!(rebuild_map(&log), Err(KvsError::RecordError())));
}

#[test]
fn the_recovery_scan_records_where_each_live_record_lies() {
    let log = "{\"Set\":{\"key\":\"a\",\"value\":\"1\"}}{\"Set\":{\"key\":\"b\",\"value\":\"2\"}}{\"Rm\":{\"key\":\"a\"}}{\"Set\":{\"key\":\"b\",\"value\":\"3\"}}"
        .as_bytes()
        .to_vec();
    let index = match rebuild_map(&log) {
        Ok(index) => index,
        Err(_) => panic!("the scan must succeed"),
    };
    assert_eq!(index.len(), 1);
    assert_eq!(index.get(&text("b")), Some(LogPosition::new(80, 31)));
    assert_eq!(index.get(&text("a")), None);
}

#[test]
fn the_recovery_scan_counts_white_space_to_the_record_after_it() {
    let log = "{\"Set\":{\"key\":\"a\",\"value\":\"1\"}}\n {\"Set\": {\"key\": \"b\", \"value\": \"2\"}}\n".as_bytes().to_vec();
    let index = match rebuild_map(&log) {
        Ok(index) => index,
        Err(_) => panic!("the scan must succeed"),
    };
    assert_eq!(index.get(&text("a")), Some(LogPosition::new(0, 31)));
    assert_eq!(index.get(&text("b")), Some(LogPosition::new(31, 37)));
    let metadata = MetaData { store_path: text("dir"), cur_file_end: log.len() as u64, since_last_compact_log_num: 2 };
    let store = match KvStore::open(text("dir"), Some(metadata), log) {
        Ok(store) => store,
        Err(_) => panic!("must open"),
    };
    assert_eq!(value(&store, "b"), Some(text("2")));
}

#[test]
fn new_with_data_checks_the_end_and_the_positions() {
    let log = "{\"Set\":{\"key\":\"a\",\"value\":\"1\"}}".as_bytes().to_vec();
    let mut index = Index::new();
    index.insert(text("a"), LogPosition::new(0, 31));
    let metadata = MetaData { store_path: text("dir"), cur_file_end: 31, since_last_compact_log_num: 1 };
    let store = match KvStore::new_with_data(metadata, index, log.clone()) {
        Ok(store) => store,
        Err(_) => panic!("consistent data must be accepted"),
    };
    assert_eq!(value(&store, "a"), Some(text("1")));

    let mut outside = Index::new();
    outside.insert(text("a"), LogPosition::new(1, 31));
    let metadata = MetaData { store_path: text("dir"), cur_file_end: 31, since_last_compact_log_num: 1 };
    assert!(matches!(KvStore::new_with_data(metadata, outside, log.clone()), Err(KvsError::RecordError())));

    let metadata = MetaData { store_path: text("dir"), cur_file_end: 30, since_last_compact_log_num: 1 };
    assert!(matches!(KvStore::new_with_data(metadata, Index::new(), log), Err(KvsError::RecordError())));
}

#[test]
fn get_reports_a_position_that_holds_no_set_record() {
    let log = "{\"Rm\":{\"key\":\"a\"}}garbage".as_bytes().to_vec();
    let mut index = Index::new();
    index.insert(text("a"), LogPosition::new(0, 18));
    index.insert(text("b"), LogPosition::new(18, 7));
    let metadata = MetaData { store_path: text("dir"), cur_file_end: 25, since_last_compact_log_num: 0 };
    let mut store = match KvStore::new_with_data(metadata, index, log.clone()) {
        Ok(store) => store,
        Err(_) => panic!("positions inside the log must be accepted"),
    };
    assert!(matches!(store.get(text("a")), Err(KvsError::Unknown)));
    assert!(matches!(store.get(text("b")), Err(KvsError::SerdeError(_))));
    assert!(store.data.compact().is_err());
    assert_eq!(store.log(), &log);
    assert_eq!(store.len(), 2);
}

#[test]
fn records_are_framed_byte_for_byte() {
    let key = "\"a\"".as_bytes().to_vec();
    let val = "\"1\"".as_bytes().to_vec();
    assert_eq!(frame_set_record(&key, &val), "{\"Set\":{\"key\":\"a\",\"value\":\"1\"}}".as_bytes().to_vec());
    assert_eq!(frame_rm_record(&key), "{\"Rm\":{\"key\":\"a\"}}".as_bytes().to_vec());
}

#[test]
fn texts_are_escaped_as_json_strings() {
    let entry = LogEntry::SetKey { key: text("a\"b"), value: text("line\nbreak\\") };
    let bytes = match encode_entry(&entry) {
        Ok(bytes) => bytes,
        Err(_) => panic!("encoding must succeed"),
    };
    assert_eq!(bytes, "{\"Set\":{\"key\":\"a\\\"b\",\"value\":\"line\\nbreak\\\\\"}}".as_bytes().to_vec());
    match decode_entry(&bytes) {
        Ok(LogEntry::SetKey { key, value }) => {
            assert_eq!(key, "a\"b");
            assert_eq!(value, "line\nbreak\\");
        }
        _ => panic!("expected the record back"),
    }
    let mut store = KvStore::new(text("dir"));
    assert!(store.set(text("a\"b"), text("line\nbreak\\")).is_ok());
    assert_eq!(store.log(), &bytes);
    assert_eq!(value(&store, "a\"b"), Some(text("line\nbreak\\")));
}

#[test]
fn a_rm_record_round_trips() {
    let entry = LogEntry::Rm { key: text("k") };
    let bytes = match encode_entry(&entry) {
        Ok(bytes) => bytes,
        Err(_) => panic!("encoding must succeed"),
    };
    assert_eq!(bytes, "{\"Rm\":{\"key\":\"k\"}}".as_bytes().to_vec());
    assert!(matches!(decode_entry(&bytes), Ok(LogEntry::Rm { key }) if key == "k"));
}

#[test]
fn decoding_refuses_what_is_no_record() {
    assert!(matches!(decode_entry("{\"Get\":{\"key\":\"k\"}}".as_bytes()), Err(KvsError::SerdeError(_))));
    assert!(matches!(decode_entry("{\"Set\":{\"key\":\"k\"}}".as_bytes()), Err(KvsError::SerdeError(_))));
    assert!(matches!(decode_entry("{}".as_bytes()), Err(KvsError::SerdeError(_))));
    match decode_entry("{}".as_bytes()) {
        Err(e) => assert!(e.message().contains("not a log record")),
        Ok(_) => panic!("an empty object is no record"),
    }
    assert!(matches!(decode_entry("[1,2]".as_bytes()), Err(KvsError::SerdeError(_))));
    assert!(matches!(
        decode_entry("{\"Rm\":{\"key\":\"k\"}}{\"Rm\":{\"key\":\"k\"}}".as_bytes()),
        Err(KvsError::SerdeError(_))
    ));
}

#[test]
fn the_front_of_a_stream_is_read_with_its_length() {
    let stream = "  {\"Rm\":{\"key\":\"k\"}}{\"Rm\":{\"key\":\"j\"}}".as_bytes();
    match decode_stream_front(stream) {
        Some(Ok((LogEntry::Rm { key }, used))) => {
            assert_eq!(key, "k");
            assert_eq!(used, 20);
        }
        _ => panic!("expected a Rm record"),
    }
    assert!(decode_stream_front(" \n".as_bytes()).is_none());
    assert!(decode_stream_front("".as_bytes()).is_none());
    assert!(matches!(decode_stream_front("{\"Rm\":".as_bytes()), Some(Err(KvsError::SerdeError(_)))));
    assert!(matches!(decode_stream_front("{\"Other\":{}}".as_bytes()), Some(Err(KvsError::SerdeError(_)))));
}

#[test]
fn the_index_keeps_one_slot_for_each_key() {
    let mut index = Index::new();
    index.insert(text("a"), LogPosition::new(0, 5));
    index.insert(text("b"), LogPosition::new(5, 6));
    index.insert(text("a"), LogPosition::new(11, 7));
    assert_eq!(index.len(), 2);
    assert_eq!(index.key_at(0), "a");
    assert_eq!(index.position_at(0), LogPosition::new(11, 7));
    assert_eq!(index.get(&text("a")), Some(LogPosition::new(11, 7)));
    assert!(index.contains_key(&text("b")));
    assert!(index.remove(&text("a")));
    assert!(!index.remove(&text("a")));
    assert_eq!(index.len(), 1);
    assert_eq!(index.key_at(0), "b");
    assert_eq!(index.get(&text("a")), None);
    assert_eq!(LogPosition::new(3, 4).start(), 3);
    assert_eq!(LogPosition::new(3, 4).len(), 4);
}

#[test]
fn what_is_to_be_written_follows_the_operation() {
    let mut store = KvStore::new(text("dir"));
    let done = store.set(text("a"), text("1"));
    assert_eq!(store.persist(0, done.is_ok()), Persist::Append { from: 0 });
    let before = store.log().len();
    let done = store.remove(text("b"));
    assert_eq!(store.persist(before, done.is_ok()), Persist::Nothing);
    let done = store.remove(text("a"));
    assert_eq!(store.persist(before, done.is_ok()), Persist::Append { from: 31 });
    assert_eq!(&store.log()[31..], "{\"Rm\":{\"key\":\"a\"}}".as_bytes());
    for i in 0..510 {
        let before = store.log().len();
        let done = store.set(text("k"), format!("{}", i));
        assert_eq!(store.persist(before, done.is_ok()), Persist::Append { from: before });
    }
    let before = store.log().len();
    let done = store.set(text("k"), text("last"));
    assert_eq!(store.persist(before, done.is_ok()), Persist::Rewrite);
    assert_eq!(store.log().as_slice(), "{\"Set\":{\"key\":\"k\",\"value\":\"last\"}}".as_bytes());
}
