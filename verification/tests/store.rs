use actionkv::codec::{encode, KvError};
use actionkv::store::{ActionKV, RecoveryPolicy};

#[test]
fn open_starts_with_empty_index() {
    let store = ActionKV::open(Vec::new());
    assert!(store.index.entries.is_empty());
    assert!(store.log.is_empty());
}

#[test]
fn get_of_absent_key_is_none() {
    let mut store = ActionKV::open(Vec::new());
    store.load().unwrap();
    assert_eq!(store.get(b"missing"), None);
}

#[test]
fn get_before_load_treats_every_key_as_absent() {
    let mut log = encode(b"a", b"1");
    log.extend_from_slice(&encode(b"b", b"2"));
    let store = ActionKV::open(log);
    assert_eq!(store.get(b"a"), None);
    assert_eq!(store.get(b"b"), None);
}

#[test]
fn last_write_wins_after_load() {
    let mut store = ActionKV::open(Vec::new());
    store.insert(b"k", b"first");
    store.update(b"k", b"second");
    store.insert(b"k", b"third");
    assert_eq!(store.get(b"k"), Some(b"third".to_vec()));

    let mut reopened = ActionKV::open(store.log.clone());
    reopened.load().unwrap();
    assert_eq!(reopened.get(b"k"), Some(b"third".to_vec()));
}

#[test]
fn delete_then_get_yields_empty_bytes_not_none() {
    let mut store = ActionKV::open(Vec::new());
    store.insert(b"k", b"value");
    store.delete(b"k");
    assert_eq!(store.get(b"k"), Some(Vec::new()));

    let mut reopened = ActionKV::open(store.log.clone());
    reopened.load().unwrap();
    assert_eq!(reopened.get(b"k"), Some(Vec::new()));
}

#[test]
fn load_twice_produces_identical_index() {
    let mut writer = ActionKV::open(Vec::new());
    writer.insert(b"a", b"1");
    writer.insert(b"b", b"2");
    writer.update(b"a", b"3");
    writer.delete(b"b");

    let mut store = ActionKV::open(writer.log.clone());
    store.load().unwrap();
    let first = store.index.entries.clone();
    store.load().unwrap();
    assert_eq!(store.index.entries, first);
}

#[test]
fn load_builds_last_write_offsets() {
    let mut writer = ActionKV::open(Vec::new());
    writer.insert(b"a", b"1");
    writer.insert(b"b", b"2");
    writer.update(b"a", b"9");

    let mut store = ActionKV::open(writer.log.clone());
    store.load().unwrap();
    let mut entries = store.index.entries.clone();
    entries.sort();
    assert_eq!(entries, vec![(b"a".to_vec(), 28u64), (b"b".to_vec(), 14u64)]);
}

#[test]
fn load_ignores_trailing_partial_record() {
    let mut writer = ActionKV::open(Vec::new());
    writer.insert(b"a", b"1");
    let mut log = writer.log.clone();
    log.extend_from_slice(&[0x07, 0x13, 0x42]);
    let mut store = ActionKV::open(log);
    store.load().unwrap();
    assert_eq!(store.get(b"a"), Some(b"1".to_vec()));
    assert_eq!(store.index.entries.len(), 1);
}

#[test]
fn load_reports_corruption_with_both_checksums() {
    let mut writer = ActionKV::open(Vec::new());
    writer.insert(b"a", b"1");
    writer.insert(b"b", b"2");
    let mut log = writer.log.clone();
    log[14 + 12] ^= 0x10;
    let mut store = ActionKV::open(log);
    match store.load() {
        Err(KvError::Corruption { computed, stored }) => assert_ne!(computed, stored),
        other => panic!("corrupted log loaded: {:?}", other),
    }
}

#[test]
fn load_with_skip_steps_over_damaged_record() {
    let mut writer = ActionKV::open(Vec::new());
    writer.insert(b"a", b"1");
    writer.insert(b"b", b"2");
    writer.update(b"a", b"9");
    let mut log = writer.log.clone();
    log[28 + 12] ^= 0x01;
    let mut store = ActionKV::open(log);
    store.load_with(RecoveryPolicy::Skip).unwrap();
    assert_eq!(store.get(b"a"), Some(b"1".to_vec()));
    assert_eq!(store.get(b"b"), Some(b"2".to_vec()));
    assert_eq!(store.log.len(), 42);
}

#[test]
fn load_with_truncate_cuts_log_at_damaged_record() {
    let mut writer = ActionKV::open(Vec::new());
    writer.insert(b"a", b"1");
    writer.insert(b"b", b"2");
    writer.update(b"a", b"9");
    let mut log = writer.log.clone();
    log[14 + 12] ^= 0x01;
    let mut store = ActionKV::open(log);
    store.load_with(RecoveryPolicy::Truncate).unwrap();
    assert_eq!(store.log.len(), 14);
    assert_eq!(store.get(b"a"), Some(b"1".to_vec()));
    assert_eq!(store.get(b"b"), None);
}

#[test]
fn load_with_truncate_drops_trailing_fragment() {
    let mut writer = ActionKV::open(Vec::new());
    writer.insert(b"a", b"1");
    let mut log = writer.log.clone();
    log.extend_from_slice(&[0x01, 0x02]);
    let mut store = ActionKV::open(log);
    store.load_with(RecoveryPolicy::Truncate).unwrap();
    assert_eq!(store.log.len(), 14);
    assert_eq!(store.get(b"a"), Some(b"1".to_vec()));
}

#[test]
fn load_with_abort_matches_plain_load() {
    let mut writer = ActionKV::open(Vec::new());
    writer.insert(b"a", b"1");
    let mut log = writer.log.clone();
    log[13] ^= 0x01;
    let mut store = ActionKV::open(log.clone());
    let via_policy = store.load_with(RecoveryPolicy::Abort);
    let mut plain = ActionKV::open(log);
    assert_eq!(via_policy, plain.load());
    assert!(matches!(via_policy, Err(KvError::Corruption { .. })));
}

#[test]
fn find_agrees_with_get_for_every_present_key() {
    let mut writer = ActionKV::open(Vec::new());
    writer.insert(b"a", b"1");
    writer.insert(b"b", b"2");
    writer.update(b"a", b"9");
    writer.delete(b"b");

    let mut store = ActionKV::open(writer.log.clone());
    store.load().unwrap();
    for key in [b"a".as_slice(), b"b".as_slice()] {
        let got = store.get(key).expect("key is present");
        let (_, found) = store.find(key).unwrap().expect("key is in the log");
        assert_eq!(found, got);
    }
    assert_eq!(store.find(b"missing").unwrap(), None);
}

#[test]
fn find_returns_offset_of_last_record_for_key() {
    let mut store = ActionKV::open(Vec::new());
    store.insert(b"a", b"1");
    store.insert(b"b", b"2");
    store.update(b"a", b"9");
    assert_eq!(store.find(b"a").unwrap(), Some((28u64, b"9".to_vec())));
    assert_eq!(store.find(b"b").unwrap(), Some((14u64, b"2".to_vec())));
}

#[test]
fn end_to_end_scenario() {
    let mut store = ActionKV::open(Vec::new());
    store.insert(b"a", b"1");
    store.insert(b"b", b"2");
    store.update(b"a", b"9");
    assert_eq!(store.get(b"a"), Some(b"9".to_vec()));
    assert_eq!(store.get(b"b"), Some(b"2".to_vec()));
    store.delete(b"b");
    assert_eq!(store.get(b"b"), Some(Vec::new()));
    assert_eq!(store.find(b"a").unwrap(), Some((28u64, b"9".to_vec())));
}

#[test]
fn insert_but_ignore_index_leaves_index_alone() {
    let mut store = ActionKV::open(Vec::new());
    let offset = store.insert_but_ignore_index(b"k", b"v");
    assert_eq!(offset, 0);
    assert!(store.index.entries.is_empty());
    assert_eq!(store.get(b"k"), None);
    assert_eq!(store.get_at(offset).value, b"v".to_vec());
}

#[test]
fn get_at_reads_record_at_offset() {
    let mut store = ActionKV::open(Vec::new());
    store.insert(b"one", b"1");
    store.insert(b"two", b"22");
    let kv = store.get_at(16);
    assert_eq!(kv.key, b"two".to_vec());
    assert_eq!(kv.value, b"22".to_vec());
}
