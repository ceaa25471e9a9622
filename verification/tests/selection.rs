use kvs::selection::{engine_name, parse_engine, select_engine, Engine};
use kvs::KvsError;

#[test]
fn engines_have_their_names() {
    assert_eq!(engine_name(Engine::Kvs), "kvs");
    assert_eq!(engine_name(Engine::Sled), "sled");
}

#[test]
fn the_engine_file_names_an_engine() {
    assert_eq!(parse_engine("kvs"), Some(Engine::Kvs));
    assert_eq!(parse_engine("sled"), Some(Engine::Sled));
    assert_eq!(parse_engine("kvs\n"), Some(Engine::Kvs));
    assert_eq!(parse_engine("sled\n"), Some(Engine::Sled));
    for text in ["", "\n", "kv", "kvs ", " kvs", "kvs\n\n", "KVS", "sled\r\n", "kvssled", "rocks"] {
        assert_eq!(parse_engine(text), None);
    }
}

#[test]
fn an_engine_file_reads_back_what_was_written() {
    for engine in [Engine::Kvs, Engine::Sled] {
        assert_eq!(parse_engine(&engine_name(engine)), Some(engine));
    }
}

#[test]
fn the_engine_asked_for_must_be_the_one_recorded() {
    let (kvs, sled) = (Engine::Kvs, Engine::Sled);
    assert_eq!(select_engine(None, None), Ok(kvs));
    assert_eq!(select_engine(Some(kvs), None), Ok(kvs));
    assert_eq!(select_engine(Some(sled), None), Ok(sled));
    assert_eq!(select_engine(None, Some(kvs)), Ok(kvs));
    assert_eq!(select_engine(None, Some(sled)), Ok(sled));
    assert_eq!(select_engine(Some(kvs), Some(kvs)), Ok(kvs));
    assert_eq!(select_engine(Some(sled), Some(sled)), Ok(sled));
    let wrong = Err(KvsError::StringError("Wrong engine!".to_string()));
    assert_eq!(select_engine(Some(kvs), Some(sled)), wrong);
    assert_eq!(select_engine(Some(sled), Some(kvs)), wrong);
}
