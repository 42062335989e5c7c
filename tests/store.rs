use std::collections::BTreeMap;

use kvs::codec::{decode, Command};
use kvs::error::KvsError;
use kvs::kv::{KvStore, LogAction, Segment, COMPACTION_THRESHOLD};

/// Applies log actions to an in-memory directory of log files.
fn apply(dir: &mut BTreeMap<u64, Vec<u8>>, actions: Vec<LogAction>) {
    for a in actions {
        match a {
            LogAction::Append { gen, bytes } => dir.entry(gen).or_default().extend(bytes),
            LogAction::Delete { gen } => {
                dir.remove(&gen);
            }
        }
    }
}

fn segments(dir: &BTreeMap<u64, Vec<u8>>) -> Vec<Segment> {
    dir.iter()
        .map(|(g, d)| Segment { gen: *g, data: d.clone() })
        .collect()
}

fn open_dir(dir: &mut BTreeMap<u64, Vec<u8>>) -> KvStore {
    let mut store = KvStore::open(segments(dir)).unwrap();
    apply(dir, store.take_actions());
    store
}

fn get(store: &KvStore, key: &str) -> Option<String> {
    store.get(key.to_owned()).unwrap()
}

#[test]
fn encode_put_record_bytes() {
    let bytes = Command::set("a".to_owned(), "bc".to_owned()).encode();
    assert_eq!(
        bytes,
        vec![0, 1, 0, 0, 0, 0, 0, 0, 0, b'a', 2, 0, 0, 0, 0, 0, 0, 0, b'b', b'c']
    );
}

#[test]
fn encode_remove_record_bytes() {
    let bytes = Command::remove("ké".to_owned()).encode();
    assert_eq!(bytes, vec![1, 3, 0, 0, 0, 0, 0, 0, 0, b'k', 0xc3, 0xa9]);
}

#[test]
fn decode_round_trip_and_offsets() {
    let mut log = Command::set("key".to_owned(), "value".to_owned()).encode();
    let first = log.len();
    log.extend(Command::remove("key".to_owned()).encode());
    match decode(&log, 0) {
        Some((Command::Put { key, value }, end)) => {
            assert_eq!(key, "key");
            assert_eq!(value, "value");
            assert_eq!(end, first);
        }
        other => panic!("unexpected {:?}", other),
    }
    match decode(&log, first) {
        Some((Command::Remove { key }, end)) => {
            assert_eq!(key, "key");
            assert_eq!(end, log.len());
        }
        other => panic!("unexpected {:?}", other),
    }
    assert!(decode(&log, log.len()).is_none());
}

#[test]
fn decode_rejects_truncated_and_bad_records() {
    let log = Command::set("key".to_owned(), "value".to_owned()).encode();
    for cut in 0..log.len() {
        assert!(decode(&log[..cut], 0).is_none());
    }
    let mut bad_tag = log.clone();
    bad_tag[0] = 7;
    assert!(decode(&bad_tag, 0).is_none());
    let bad_utf8 = vec![1, 1, 0, 0, 0, 0, 0, 0, 0, 0xff];
    assert!(decode(&bad_utf8, 0).is_none());
}

#[test]
fn open_empty_directory_creates_first_generation() {
    let mut store = KvStore::open(Vec::new()).unwrap();
    assert_eq!(store.current_gen(), 1);
    let actions = store.take_actions();
    assert_eq!(actions.len(), 1);
    match &actions[0] {
        LogAction::Append { gen, bytes } => {
            assert_eq!(*gen, 1);
            assert!(bytes.is_empty());
        }
        other => panic!("unexpected {:?}", other),
    }
    assert!(store.take_actions().is_empty());
}

#[test]
fn open_rejects_unordered_generations() {
    let segs = vec![
        Segment { gen: 3, data: Vec::new() },
        Segment { gen: 2, data: Vec::new() },
    ];
    assert!(matches!(KvStore::open(segs), Err(KvsError::Io(_))));
    let segs = vec![Segment { gen: u64::MAX, data: Vec::new() }];
    assert!(matches!(KvStore::open(segs), Err(KvsError::Io(_))));
}

#[test]
fn set_then_get_returns_latest_value() {
    let mut dir = BTreeMap::new();
    let mut store = open_dir(&mut dir);
    store.set("a".to_owned(), "1".to_owned()).unwrap();
    store.set("b".to_owned(), "2".to_owned()).unwrap();
    store.set("a".to_owned(), "3".to_owned()).unwrap();
    assert_eq!(get(&store, "a"), Some("3".to_owned()));
    assert_eq!(get(&store, "b"), Some("2".to_owned()));
    assert_eq!(get(&store, "c"), None);
    store.compact().unwrap();
    assert_eq!(get(&store, "a"), Some("3".to_owned()));
    assert_eq!(get(&store, "b"), Some("2".to_owned()));
}

#[test]
fn set_appends_one_record_and_counts_replaced_bytes() {
    let mut dir = BTreeMap::new();
    let mut store = open_dir(&mut dir);
    store.set("a".to_owned(), "1".to_owned()).unwrap();
    let record = Command::set("a".to_owned(), "1".to_owned()).encode();
    let actions = store.take_actions();
    assert_eq!(actions.len(), 1);
    match &actions[0] {
        LogAction::Append { gen, bytes } => {
            assert_eq!(*gen, 1);
            assert_eq!(*bytes, record);
        }
        other => panic!("unexpected {:?}", other),
    }
    assert_eq!(store.uncompacted(), 0);
    store.set("a".to_owned(), "2".to_owned()).unwrap();
    assert_eq!(store.uncompacted(), record.len() as u64);
}

#[test]
fn remove_absent_key_fails_and_writes_nothing() {
    let mut dir = BTreeMap::new();
    let mut store = open_dir(&mut dir);
    store.set("a".to_owned(), "1".to_owned()).unwrap();
    apply(&mut dir, store.take_actions());
    assert_eq!(store.remove("b".to_owned()), Err(KvsError::KeyNotFound));
    assert!(store.take_actions().is_empty());
    assert_eq!(store.uncompacted(), 0);
    assert_eq!(get(&store, "a"), Some("1".to_owned()));
}

#[test]
fn remove_present_key_then_get_is_none() {
    let mut dir = BTreeMap::new();
    let mut store = open_dir(&mut dir);
    store.set("a".to_owned(), "1".to_owned()).unwrap();
    store.set("b".to_owned(), "2".to_owned()).unwrap();
    store.remove("a".to_owned()).unwrap();
    assert_eq!(get(&store, "a"), None);
    assert_eq!(get(&store, "b"), Some("2".to_owned()));
    let set_len = Command::set("a".to_owned(), "1".to_owned()).encode().len();
    let rm_len = Command::remove("a".to_owned()).encode().len();
    assert_eq!(store.uncompacted(), (set_len + rm_len) as u64);
    assert_eq!(store.remove("a".to_owned()), Err(KvsError::KeyNotFound));
}

#[test]
fn reopen_recovers_every_key() {
    let mut dir = BTreeMap::new();
    let mut store = open_dir(&mut dir);
    for i in 0..50 {
        store.set(format!("k{}", i % 7), format!("v{}", i)).unwrap();
    }
    store.remove("k3".to_owned()).unwrap();
    store.compact().unwrap();
    store.set("k0".to_owned(), "after".to_owned()).unwrap();
    store.remove("k5".to_owned()).unwrap();
    apply(&mut dir, store.take_actions());
    let reopened = open_dir(&mut dir);
    for i in 0..8 {
        let key = format!("k{}", i);
        assert_eq!(get(&reopened, &key), get(&store, &key));
    }
    assert_eq!(reopened.uncompacted(), store.uncompacted());
    assert_eq!(reopened.current_gen(), store.current_gen() + 1);
}

#[test]
fn reopen_stops_at_a_torn_trailing_record() {
    let mut dir = BTreeMap::new();
    let mut store = open_dir(&mut dir);
    store.set("a".to_owned(), "1".to_owned()).unwrap();
    store.set("b".to_owned(), "2".to_owned()).unwrap();
    apply(&mut dir, store.take_actions());
    let torn = Command::set("c".to_owned(), "3".to_owned()).encode();
    dir.get_mut(&1).unwrap().extend(&torn[..torn.len() - 1]);
    let reopened = open_dir(&mut dir);
    assert_eq!(get(&reopened, "a"), Some("1".to_owned()));
    assert_eq!(get(&reopened, "b"), Some("2".to_owned()));
    assert_eq!(get(&reopened, "c"), None);
}

#[test]
fn compaction_keeps_values_and_shrinks_the_log() {
    let mut dir = BTreeMap::new();
    let mut store = open_dir(&mut dir);
    for i in 0..20 {
        store.set("a".to_owned(), format!("{}", i)).unwrap();
        store.set("b".to_owned(), format!("{}", i)).unwrap();
    }
    store.remove("b".to_owned()).unwrap();
    apply(&mut dir, store.take_actions());
    let before: usize = dir.values().map(|d| d.len()).sum();
    let gen = store.current_gen();
    store.compact().unwrap();
    apply(&mut dir, store.take_actions());
    let after: usize = dir.values().map(|d| d.len()).sum();
    assert!(after < before);
    assert_eq!(dir.keys().copied().collect::<Vec<_>>(), vec![gen + 1, gen + 2]);
    assert!(dir[&(gen + 2)].is_empty());
    assert_eq!(
        dir[&(gen + 1)],
        Command::set("a".to_owned(), "19".to_owned()).encode()
    );
    assert_eq!(store.uncompacted(), 0);
    assert_eq!(get(&store, "a"), Some("19".to_owned()));
    assert_eq!(get(&store, "b"), None);
    let reopened = open_dir(&mut dir);
    assert_eq!(get(&reopened, "a"), Some("19".to_owned()));
}

#[test]
fn stale_bytes_over_threshold_trigger_compaction() {
    let mut dir = BTreeMap::new();
    let mut store = open_dir(&mut dir);
    let value = "x".repeat(100_000);
    let mut compacted = false;
    for i in 0..20 {
        let gen = store.current_gen();
        store.set("big".to_owned(), format!("{}{}", value, i)).unwrap();
        apply(&mut dir, store.take_actions());
        if store.current_gen() == gen + 2 {
            compacted = true;
            assert_eq!(store.uncompacted(), 0);
            assert_eq!(dir.len(), 2);
        } else {
            assert!(store.uncompacted() <= COMPACTION_THRESHOLD);
        }
        assert_eq!(get(&store, "big"), Some(format!("{}{}", value, i)));
    }
    assert!(compacted);
    let reopened = open_dir(&mut dir);
    assert_eq!(get(&reopened, "big"), Some(format!("{}19", value)));
}

#[test]
fn disjoint_keys_interleaved_match_sequential() {
    let mut interleaved = open_dir(&mut BTreeMap::new());
    let mut sequential = open_dir(&mut BTreeMap::new());
    for round in 0..10 {
        for worker in 0..4 {
            let key = format!("w{}-{}", worker, round % 3);
            interleaved.set(key, format!("{}", round)).unwrap();
        }
    }
    for worker in 0..4 {
        for round in 0..10 {
            let key = format!("w{}-{}", worker, round % 3);
            sequential.set(key, format!("{}", round)).unwrap();
        }
    }
    for worker in 0..4 {
        for slot in 0..3 {
            let key = format!("w{}-{}", worker, slot);
            assert_eq!(get(&interleaved, &key), get(&sequential, &key));
        }
    }
}

#[test]
fn key_not_found_message() {
    assert_eq!(KvsError::KeyNotFound.message(), "Key not found");
    assert_eq!(KvsError::UnexpectedCommandType.message(), "Unexpected command type");
    assert_eq!(KvsError::Io("disk full".to_owned()).message(), "disk full");
}
