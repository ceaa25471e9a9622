use kvs::command::{encode_put, encode_remove};
use kvs::logdir::LogDir;
use kvs::store::COMPACTION_THRESHOLD;
use kvs::{KvStore, KvsEngine, KvsError};

fn fresh() -> KvStore {
    KvStore::open(LogDir::new()).unwrap()
}

fn text(s: &str) -> String {
    s.to_string()
}

fn dir_size(dir: &LogDir) -> usize {
    (0..dir.len()).map(|i| dir.size_at(i)).sum()
}

#[test]
fn a_fresh_store_writes_to_generation_one() {
    let store = fresh();
    assert_eq!(store.current_gen(), 1);
    assert_eq!(store.uncompacted(), 0);
    assert_eq!(store.safe_point(), 0);
    assert_eq!(store.dir().generations(), vec![1]);
    assert_eq!(store.dir().size_at(0), 0);
}

#[test]
fn a_new_store_is_a_store_opened_on_nothing() {
    let mut store = KvStore::new();
    assert_eq!(store.current_gen(), 1);
    assert_eq!(store.uncompacted(), 0);
    assert_eq!(store.safe_point(), 0);
    assert_eq!(store.dir().generations(), vec![1]);
    assert_eq!(store.get(text("k")), Ok(None));
    store.set(text("k"), text("v")).unwrap();
    assert_eq!(store.get(text("k")), Ok(Some(text("v"))));
}

#[test]
fn round_trip() {
    let mut store = fresh();
    assert_eq!(store.set(text("key1"), text("value1")), Ok(()));
    assert_eq!(store.get(text("key1")), Ok(Some(text("value1"))));
    assert_eq!(store.set(text("key1"), text("value2")), Ok(()));
    assert_eq!(store.get(text("key1")), Ok(Some(text("value2"))));
}

#[test]
fn missing_key() {
    let mut store = fresh();
    assert_eq!(store.get(text("missing")), Ok(None));
}

#[test]
fn remove_missing() {
    let mut store = fresh();
    assert_eq!(store.remove(text("missing")), Err(KvsError::KeyNotFound));
    assert_eq!(store.dir().size_at(0), 0);
    assert_eq!(KvsError::KeyNotFound.message(), "Key not found");
}

#[test]
fn get_after_remove_finds_nothing() {
    let mut store = fresh();
    store.set(text("a"), text("1")).unwrap();
    store.set(text("b"), text("2")).unwrap();
    assert_eq!(store.remove(text("a")), Ok(()));
    assert_eq!(store.get(text("a")), Ok(None));
    assert_eq!(store.get(text("b")), Ok(Some(text("2"))));
    assert_eq!(store.remove(text("a")), Err(KvsError::KeyNotFound));
}

#[test]
fn set_leaves_other_keys_alone() {
    let mut store = fresh();
    store.set(text("a"), text("1")).unwrap();
    store.set(text("b"), text("2")).unwrap();
    store.set(text("a"), text("3")).unwrap();
    assert_eq!(store.get(text("a")), Ok(Some(text("3"))));
    assert_eq!(store.get(text("b")), Ok(Some(text("2"))));
}

#[test]
fn set_appends_one_record_to_the_active_segment() {
    let mut store = fresh();
    store.set(text("key1"), text("value1")).unwrap();
    let record = encode_put("key1", "value1");
    assert_eq!(store.dir().bytes_at(0), &record[..]);
    store.remove(text("key1")).unwrap();
    let mut log = record.clone();
    log.extend_from_slice(&encode_remove("key1"));
    assert_eq!(store.dir().bytes_at(0), &log[..]);
}

#[test]
fn dead_bytes_are_counted() {
    let mut store = fresh();
    let first = encode_put("k", "v1").len() as u64;
    let second = encode_put("k", "value-two").len() as u64;
    let removal = encode_remove("k").len() as u64;
    assert_eq!((first, second, removal), (32, 39, 22));
    store.set(text("k"), text("v1")).unwrap();
    assert_eq!(store.uncompacted(), 0);
    store.set(text("k"), text("value-two")).unwrap();
    assert_eq!(store.uncompacted(), 32);
    store.set(text("other"), text("x")).unwrap();
    assert_eq!(store.uncompacted(), 32);
    store.remove(text("k")).unwrap();
    assert_eq!(store.uncompacted(), 32 + 39 + 22);
}

#[test]
fn persistence() {
    let mut store = fresh();
    store.set(text("a"), text("1")).unwrap();
    let dir = store.into_dir();
    let mut store = KvStore::open(dir).unwrap();
    assert_eq!(store.get(text("a")), Ok(Some(text("1"))));
}

#[test]
fn reopening_keeps_every_operation() {
    let mut store = fresh();
    store.set(text("a"), text("1")).unwrap();
    store.set(text("b"), text("2")).unwrap();
    store.set(text("a"), text("3")).unwrap();
    store.remove(text("b")).unwrap();
    store.set(text("c"), text("4")).unwrap();
    let dead = store.uncompacted();
    let gen = store.current_gen();
    let mut again = KvStore::open(store.into_dir()).unwrap();
    assert_eq!(again.get(text("a")), Ok(Some(text("3"))));
    assert_eq!(again.get(text("b")), Ok(None));
    assert_eq!(again.get(text("c")), Ok(Some(text("4"))));
    assert_eq!(again.uncompacted(), dead);
    assert_eq!(again.current_gen(), gen + 1);
    assert_eq!(again.safe_point(), 0);
    assert_eq!(again.dir().generations(), vec![gen, gen + 1]);
}

#[test]
fn open_replays_segments_in_ascending_order() {
    let mut dir = LogDir::new();
    dir.create(7);
    dir.create(2);
    dir.append(7, &encode_put("k", "new")).unwrap();
    dir.append(2, &encode_put("k", "old")).unwrap();
    dir.append(2, &encode_put("gone", "x")).unwrap();
    dir.append(7, &encode_remove("gone")).unwrap();
    let mut store = KvStore::open(dir).unwrap();
    assert_eq!(store.current_gen(), 8);
    assert_eq!(store.dir().generations(), vec![2, 7, 8]);
    assert_eq!(store.get(text("k")), Ok(Some(text("new"))));
    assert_eq!(store.get(text("gone")), Ok(None));
    let dead = encode_put("k", "old").len() + encode_put("gone", "x").len()
        + encode_remove("gone").len();
    assert_eq!(store.uncompacted(), dead as u64);
}

#[test]
fn open_fails_on_a_segment_that_is_no_log() {
    let mut dir = LogDir::new();
    dir.create(1);
    dir.append(1, &encode_put("k", "v")).unwrap();
    dir.append(1, b"{\"Set\":{\"key\":\"half").unwrap();
    assert!(matches!(KvStore::open(dir), Err(KvsError::Serde(_))));
}

#[test]
fn open_fails_when_no_generation_is_left() {
    let mut dir = LogDir::new();
    dir.create(u64::MAX);
    assert!(matches!(KvStore::open(dir), Err(KvsError::Io(_))));
}

#[test]
fn set_fails_with_io_when_compaction_finds_no_generation() {
    let mut dir = LogDir::new();
    dir.create(u64::MAX - 1);
    let mut store = KvStore::open(dir).unwrap();
    assert_eq!(store.current_gen(), u64::MAX);
    assert!(matches!(store.compact(), Err(KvsError::Io(_))));
    let big = "x".repeat(COMPACTION_THRESHOLD as usize);
    assert_eq!(store.set(text("k"), big.clone()), Ok(()));
    assert!(matches!(store.set(text("k"), text("small")), Err(KvsError::Io(_))));
    assert_eq!(store.get(text("k")), Ok(Some(text("small"))));
    assert_eq!(store.current_gen(), u64::MAX);
    assert!(store.uncompacted() > COMPACTION_THRESHOLD);
    assert!(matches!(store.remove(text("k")), Err(KvsError::Io(_))));
    assert_eq!(store.get(text("k")), Ok(None));
}

#[test]
fn compact_rewrites_the_live_records_into_one_segment() {
    let mut store = fresh();
    store.set(text("b"), text("2")).unwrap();
    store.set(text("a"), text("0")).unwrap();
    store.set(text("a"), text("1")).unwrap();
    store.set(text("c"), text("3")).unwrap();
    store.remove(text("c")).unwrap();
    assert_eq!(store.compact(), Ok(()));
    assert_eq!(store.current_gen(), 3);
    assert_eq!(store.safe_point(), 2);
    assert_eq!(store.uncompacted(), 0);
    assert_eq!(store.dir().generations(), vec![2, 3]);
    let mut live = encode_put("a", "1");
    live.extend_from_slice(&encode_put("b", "2"));
    assert_eq!(store.dir().bytes_at(0), &live[..]);
    assert_eq!(store.dir().size_at(1), 0);
    assert_eq!(store.get(text("a")), Ok(Some(text("1"))));
    assert_eq!(store.get(text("b")), Ok(Some(text("2"))));
    assert_eq!(store.get(text("c")), Ok(None));
    store.set(text("d"), text("4")).unwrap();
    assert_eq!(store.dir().bytes_at(1), &encode_put("d", "4")[..]);
    let mut again = KvStore::open(store.into_dir()).unwrap();
    assert_eq!(again.get(text("a")), Ok(Some(text("1"))));
    assert_eq!(again.get(text("d")), Ok(Some(text("4"))));
    assert_eq!(again.uncompacted(), 0);
}

#[test]
fn compact_of_an_empty_store_leaves_two_empty_segments() {
    let mut store = fresh();
    assert_eq!(store.compact(), Ok(()));
    assert_eq!(store.dir().generations(), vec![2, 3]);
    assert_eq!(dir_size(store.dir()), 0);
}

#[test]
fn set_compacts_once_the_threshold_is_passed() {
    let mut store = fresh();
    let value = "x".repeat(1000);
    let record = encode_put("k", &value).len() as u64;
    let mut written: u64 = 0;
    let mut expected_dead: u64 = 0;
    let mut expected_gen: u64 = 1;
    for _ in 0..2000 {
        store.set(text("k"), value.clone()).unwrap();
        if written > 0 {
            expected_dead += record;
        }
        written += record;
        if expected_dead > COMPACTION_THRESHOLD {
            expected_dead = 0;
            expected_gen += 2;
        }
        assert_eq!(store.uncompacted(), expected_dead);
        assert_eq!(store.current_gen(), expected_gen);
        assert!(store.uncompacted() <= COMPACTION_THRESHOLD);
    }
    assert_eq!(expected_gen, 3);
    assert_eq!(store.safe_point(), 2);
    assert_eq!(store.get(text("k")), Ok(Some(value)));
}

#[test]
fn compaction_reduces_size() {
    let mut store = fresh();
    let mut written: usize = 0;
    let mut last = String::new();
    let mut n: u64 = 0;
    while written <= 4 * 1024 * 1024 {
        last = format!("{:0>1000}", n);
        written += encode_put("k", &last).len();
        store.set(text("k"), last.clone()).unwrap();
        n += 1;
    }
    assert!(dir_size(store.dir()) < 2 * 1024 * 1024);
    assert!(store.current_gen() > 1);
    assert_eq!(store.get(text("k")), Ok(Some(last)));
}

#[test]
fn remove_compacts_once_the_threshold_is_passed() {
    let mut store = fresh();
    let value = "x".repeat(COMPACTION_THRESHOLD as usize);
    store.set(text("big"), value).unwrap();
    store.set(text("kept"), text("1")).unwrap();
    assert_eq!(store.current_gen(), 1);
    store.remove(text("big")).unwrap();
    assert_eq!(store.current_gen(), 3);
    assert_eq!(store.uncompacted(), 0);
    assert_eq!(store.dir().bytes_at(0), &encode_put("kept", "1")[..]);
    assert_eq!(store.get(text("big")), Ok(None));
    assert_eq!(store.get(text("kept")), Ok(Some(text("1"))));
}

#[test]
fn many_writes_and_reads_interleaved() {
    let mut store = fresh();
    for i in 0..10_000u32 {
        let key = format!("key{}", i);
        assert_eq!(store.set(key.clone(), format!("value{}", i)), Ok(()));
        let back = i / 2;
        assert_eq!(store.get(format!("key{}", back)), Ok(Some(format!("value{}", back))));
        assert_eq!(store.get(key), Ok(Some(format!("value{}", i))));
    }
    for i in (0..10_000u32).step_by(997) {
        assert_eq!(store.get(format!("key{}", i)), Ok(Some(format!("value{}", i))));
    }
}

#[test]
fn the_engine_trait_reaches_the_store() {
    fn exercise<E: KvsEngine>(engine: &mut E) {
        assert_eq!(engine.set("k".to_string(), "v".to_string()), Ok(()));
        assert_eq!(engine.get("k".to_string()), Ok(Some("v".to_string())));
        assert_eq!(engine.remove("k".to_string()), Ok(()));
        assert_eq!(engine.get("k".to_string()), Ok(None));
        assert_eq!(engine.remove("k".to_string()), Err(KvsError::KeyNotFound));
    }
    let mut store = fresh();
    exercise(&mut store);
}

#[test]
fn keys_and_values_may_hold_any_text() {
    let mut store = fresh();
    let key = "k\"\\\n\u{0}\u{1f}\u{e9}\u{1F600}".to_string();
    let value = "{\"Set\":{\"key\":\"x\",\"value\":\"y\"}}".to_string();
    store.set(key.clone(), value.clone()).unwrap();
    store.set(String::new(), String::new()).unwrap();
    assert_eq!(store.get(key.clone()), Ok(Some(value.clone())));
    assert_eq!(store.get(String::new()), Ok(Some(String::new())));
    let mut again = KvStore::open(store.into_dir()).unwrap();
    assert_eq!(again.get(key), Ok(Some(value)));
}
