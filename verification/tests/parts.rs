use crossbeam_skiplist::SkipMap;
use kvs::command::{encode_put, encode_remove, Command};
use kvs::compaction::remove_stale;
use kvs::index::CommandPos;
use kvs::logdir::LogDir;
use kvs::reader::KvsStoreReader;
use kvs::replay::{load, saturating_count};
use kvs::KvsError;

fn pos(gen: u64, pos: u64, len: u64) -> CommandPos {
    CommandPos { gen, pos, len }
}

#[test]
fn a_position_is_made_from_a_generation_and_a_range() {
    assert_eq!(CommandPos::from((4, 3..10)), pos(4, 3, 7));
    assert_eq!(CommandPos::from((0, 0..0)), pos(0, 0, 0));
    assert_eq!(CommandPos::from((1, u64::MAX - 1..u64::MAX)), pos(1, u64::MAX - 1, 1));
    assert_eq!(CommandPos::from((4, 10..3)), pos(4, 10, 0));
}

#[test]
fn a_serde_error_becomes_a_serde_error() {
    let e = serde_json::from_str::<String>("nonsense").unwrap_err();
    let text = e.to_string();
    assert_eq!(KvsError::from(e), KvsError::Serde(text));
}

#[test]
fn an_io_error_becomes_an_io_error() {
    let e = std::io::Error::new(std::io::ErrorKind::NotFound, "no such file");
    assert_eq!(KvsError::from(e), KvsError::Io("no such file".to_string()));
}

#[test]
fn a_utf8_error_becomes_a_utf8_error() {
    let e = String::from_utf8(vec![0xff, 0xfe]).unwrap_err();
    let text = e.to_string();
    assert_eq!(KvsError::from(e), KvsError::Utf8(text));
}

#[test]
fn every_error_has_its_message() {
    let m = "m".to_string();
    assert_eq!(KvsError::Io(m.clone()).message(), "m");
    assert_eq!(KvsError::Serde(m.clone()).message(), "m");
    assert_eq!(KvsError::KeyNotFound.message(), "Key not found");
    assert_eq!(KvsError::UnexceptedCommandType.message(), "Unexcepted command type");
    assert_eq!(KvsError::StringError(m.clone()).message(), "m");
    assert_eq!(KvsError::Utf8(m.clone()).message(), "UTF-8 error: m");
    assert_eq!(KvsError::Sled(m).message(), "sled error: m");
}

#[test]
fn a_count_of_bytes_saturates() {
    assert_eq!(saturating_count(0, 0), 0);
    assert_eq!(saturating_count(3, 4), 7);
    assert_eq!(saturating_count(u64::MAX - 1, 1), u64::MAX);
    assert_eq!(saturating_count(u64::MAX, 1), u64::MAX);
    assert_eq!(saturating_count(u64::MAX - 5, 9), u64::MAX);
}

#[test]
fn a_directory_keeps_its_segments_in_order() {
    let mut dir = LogDir::new();
    assert_eq!(dir.len(), 0);
    dir.create(5);
    dir.create(2);
    dir.create(9);
    dir.create(5);
    assert_eq!(dir.generations(), vec![2, 5, 9]);
    assert_eq!(dir.find(5), Some(1));
    assert_eq!(dir.find(3), None);
    assert_eq!(dir.gen_at(2), 9);
    assert_eq!(dir.append(5, b"abc"), Ok(()));
    assert_eq!(dir.append(5, b"de"), Ok(()));
    assert_eq!(dir.size_at(1), 5);
    assert_eq!(dir.bytes_at(1), b"abcde");
    dir.create(5);
    assert_eq!(dir.bytes_at(1), b"abcde");
    assert!(dir.remove(2));
    assert!(!dir.remove(2));
    assert_eq!(dir.generations(), vec![5, 9]);
    assert_eq!(dir.bytes_at(0), b"abcde");
}

#[test]
fn appending_to_a_missing_segment_fails_with_io() {
    let mut dir = LogDir::new();
    dir.create(1);
    assert!(matches!(dir.append(2, b"x"), Err(KvsError::Io(_))));
    assert_eq!(dir.size_at(0), 0);
}

#[test]
fn a_read_returns_the_bytes_asked_for_as_far_as_they_reach() {
    let mut dir = LogDir::new();
    dir.create(1);
    dir.append(1, b"0123456789").unwrap();
    assert_eq!(dir.read(1, 2, 3), Ok(b"234".to_vec()));
    assert_eq!(dir.read(1, 0, 10), Ok(b"0123456789".to_vec()));
    assert_eq!(dir.read(1, 8, 5), Ok(b"89".to_vec()));
    assert_eq!(dir.read(1, 10, 1), Ok(Vec::new()));
    assert_eq!(dir.read(1, 50, 1), Ok(Vec::new()));
    assert_eq!(dir.read(1, 4, 0), Ok(Vec::new()));
    assert_eq!(dir.read(1, 3, u64::MAX), Ok(b"3456789".to_vec()));
    assert_eq!(dir.read(1, u64::MAX, u64::MAX), Ok(Vec::new()));
    assert!(matches!(dir.read(2, 0, 1), Err(KvsError::Io(_))));
}

#[test]
fn remove_stale_drops_what_lies_below_the_bound() {
    let mut dir = LogDir::new();
    for gen in [1, 2, 4, 5, 8] {
        dir.create(gen);
    }
    remove_stale(&mut dir, 5);
    assert_eq!(dir.generations(), vec![5, 8]);
    remove_stale(&mut dir, 5);
    assert_eq!(dir.generations(), vec![5, 8]);
    remove_stale(&mut dir, 100);
    assert_eq!(dir.generations(), Vec::<u64>::new());
}

#[test]
fn load_rebuilds_the_index_and_counts_the_dead_bytes() {
    let a1 = encode_put("a", "1");
    let b1 = encode_put("b", "22");
    let a2 = encode_put("a", "333");
    let rb = encode_remove("b");
    let rc = encode_remove("c");
    let mut bytes = Vec::new();
    for part in [&a1, &b1, &a2, &rb, &rc] {
        bytes.extend_from_slice(part);
    }
    let mut index: SkipMap<String, CommandPos> = SkipMap::new();
    index.insert("old".to_string(), pos(1, 0, 40));
    index.insert("b".to_string(), pos(1, 40, 7));
    let dead = load(3, &bytes, &mut index);
    assert_eq!(dead, Ok((7 + a1.len() + b1.len() + rb.len() + rc.len()) as u64));
    let entries: Vec<(String, CommandPos)> =
        index.iter().map(|e| (e.key().clone(), *e.value())).collect();
    assert_eq!(
        entries,
        vec![
            ("a".to_string(), pos(3, (a1.len() + b1.len()) as u64, a2.len() as u64)),
            ("old".to_string(), pos(1, 0, 40)),
        ]
    );
}

#[test]
fn load_stops_at_the_first_byte_that_begins_no_record() {
    let mut bytes = encode_put("a", "1");
    let good = bytes.len();
    bytes.extend_from_slice(b"{\"Set\":{\"key\":\"b\",\"val");
    let mut index: SkipMap<String, CommandPos> = SkipMap::new();
    assert!(matches!(load(1, &bytes, &mut index), Err(KvsError::Serde(_))));
    assert_eq!(index.len(), 1);
    assert_eq!(*index.get("a").unwrap().value(), pos(1, 0, good as u64));
}

#[test]
fn load_of_an_empty_segment_changes_nothing() {
    let mut index: SkipMap<String, CommandPos> = SkipMap::new();
    assert_eq!(load(1, b"", &mut index), Ok(0));
    assert!(index.is_empty());
}

#[test]
fn a_reader_opens_what_it_reads_and_closes_what_is_retired() {
    let mut dir = LogDir::new();
    for gen in [1, 2, 3] {
        dir.create(gen);
        dir.append(gen, &encode_put("k", &format!("v{}", gen))).unwrap();
    }
    let len = encode_put("k", "v1").len() as u64;
    let mut reader = KvsStoreReader::new(0);
    assert_eq!(reader.safe_point(), 0);
    assert_eq!(reader.open_generations(), Vec::<u64>::new());
    assert_eq!(reader.read_and(&dir, pos(3, 0, len)), Ok(encode_put("k", "v3")));
    assert_eq!(reader.read_and(&dir, pos(1, 0, len)), Ok(encode_put("k", "v1")));
    assert_eq!(reader.read_and(&dir, pos(3, 7, 3)), Ok(b"{\"k".to_vec()));
    assert_eq!(reader.open_generations(), vec![1, 3]);
    assert!(matches!(reader.read_and(&dir, pos(9, 0, len)), Err(KvsError::Io(_))));
    assert_eq!(reader.open_generations(), vec![1, 3]);
    reader.set_safe_point(2);
    assert_eq!(reader.open_generations(), vec![1, 3]);
    assert_eq!(reader.read_and(&dir, pos(2, 0, len)), Ok(encode_put("k", "v2")));
    assert_eq!(reader.open_generations(), vec![2, 3]);
    reader.set_safe_point(3);
    reader.close_stale_handles();
    assert_eq!(reader.open_generations(), vec![3]);
    reader.set_safe_point(4);
    reader.close_stale_handles();
    assert_eq!(reader.open_generations(), Vec::<u64>::new());
}

#[test]
fn a_reader_reads_commands() {
    let mut dir = LogDir::new();
    dir.create(1);
    let put = encode_put("k", "v");
    let remove = encode_remove("k");
    dir.append(1, &put).unwrap();
    dir.append(1, &remove).unwrap();
    let mut reader = KvsStoreReader::new(0);
    assert_eq!(
        reader.read_command(&dir, pos(1, 0, put.len() as u64)),
        Ok(Command::Put { key: "k".to_string(), value: "v".to_string() })
    );
    assert_eq!(
        reader.read_command(&dir, pos(1, put.len() as u64, remove.len() as u64)),
        Ok(Command::Remove { key: "k".to_string() })
    );
    assert!(matches!(
        reader.read_command(&dir, pos(1, 0, put.len() as u64 + 1)),
        Err(KvsError::Serde(_))
    ));
    assert!(matches!(reader.read_command(&dir, pos(1, 1, 5)), Err(KvsError::Serde(_))));
    assert!(matches!(reader.read_command(&dir, pos(2, 0, 5)), Err(KvsError::Io(_))));
}

#[test]
fn a_copy_of_a_reader_has_handles_of_its_own() {
    let mut dir = LogDir::new();
    dir.create(1);
    dir.append(1, b"abc").unwrap();
    let mut reader = KvsStoreReader::new(1);
    reader.read_and(&dir, pos(1, 0, 3)).unwrap();
    let copy = reader.clone();
    assert_eq!(copy.safe_point(), 1);
    assert_eq!(copy.open_generations(), Vec::<u64>::new());
    assert_eq!(reader.open_generations(), vec![1]);
}
