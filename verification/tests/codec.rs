use kvs::command::{
    encode_command, encode_put, encode_remove, parse_record, read_command, value_of_record,
    Command,
};
use kvs::KvsError;

fn put(key: &str, value: &str) -> Command {
    Command::Put { key: key.to_string(), value: value.to_string() }
}

fn remove(key: &str) -> Command {
    Command::Remove { key: key.to_string() }
}

#[test]
fn put_record_has_the_compact_tagged_form() {
    let bytes = encode_command(&put("key1", "value1"));
    assert_eq!(bytes, b"{\"Set\":{\"key\":\"key1\",\"value\":\"value1\"}}".to_vec());
    assert_eq!(bytes.len(), 39);
}

#[test]
fn remove_record_has_the_compact_tagged_form() {
    let bytes = encode_command(&remove("key1"));
    assert_eq!(bytes, b"{\"Remove\":{\"key\":\"key1\"}}".to_vec());
    assert_eq!(bytes.len(), 25);
}

#[test]
fn encode_put_and_encode_remove_agree_with_encode_command() {
    assert_eq!(encode_put("a", "b"), encode_command(&put("a", "b")));
    assert_eq!(encode_remove("a"), encode_command(&remove("a")));
}

#[test]
fn strings_are_written_as_json_literals() {
    let bytes = encode_put("a\"b", "line\nbreak\\");
    assert_eq!(
        bytes,
        b"{\"Set\":{\"key\":\"a\\\"b\",\"value\":\"line\\nbreak\\\\\"}}".to_vec()
    );
}

#[test]
fn empty_key_and_value_are_records_too() {
    let bytes = encode_put("", "");
    assert_eq!(bytes, b"{\"Set\":{\"key\":\"\",\"value\":\"\"}}".to_vec());
    assert_eq!(read_command(&bytes), Ok((put("", ""), bytes.len())));
}

#[test]
fn a_record_reads_back_as_its_command() {
    for c in [put("key1", "value1"), remove("key1"), put("a\"b", "\u{e9}\u{4e16}\n\t\\"), remove("")] {
        let bytes = encode_command(&c);
        assert_eq!(read_command(&bytes), Ok((c.clone(), bytes.len())));
        assert_eq!(parse_record(&bytes), Ok(c));
    }
}

#[test]
fn a_record_reads_back_whatever_follows_it() {
    let mut bytes = encode_command(&put("k", "v"));
    let len = bytes.len();
    bytes.extend_from_slice(&encode_command(&remove("k")));
    assert_eq!(read_command(&bytes), Ok((put("k", "v"), len)));
    assert_eq!(read_command(&bytes[len..]), Ok((remove("k"), bytes.len() - len)));
    let mut junk = encode_command(&put("k", "v"));
    junk.extend_from_slice(b"\"\"}}garbage");
    assert_eq!(read_command(&junk), Ok((put("k", "v"), len)));
}

#[test]
fn escapes_in_a_record_are_read() {
    let bytes = b"{\"Set\":{\"key\":\"\\u0041\",\"value\":\"x\\ty\"}}";
    assert_eq!(read_command(bytes), Ok((put("A", "x\ty"), bytes.len())));
}

#[test]
fn bytes_that_begin_no_record_fail_with_serde() {
    for input in [
        &b""[..],
        b"garbage",
        b"{\"Set\":{\"key\":\"k\"}}",
        b"{\"Set\":{\"key\":\"k\",\"value\":\"v\"}",
        b"{\"Set\":{\"key\":\"k\",\"value\":\"v\"",
        b"{\"Set\":{\"key\":\"k\",\"value\":7}}",
        b"{\"Set\":{\"key\":\"k",
        b"{\"Remove\":{\"key\":\"k\"}",
        b"{\"Remove\":{\"key\":null}}",
        b"{\"Get\":{\"key\":\"k\"}}",
        b" {\"Remove\":{\"key\":\"k\"}}",
    ] {
        assert!(matches!(read_command(input), Err(KvsError::Serde(_))));
    }
}

#[test]
fn parse_record_wants_exactly_one_record() {
    let mut bytes = encode_command(&put("k", "v"));
    assert_eq!(parse_record(&bytes), Ok(put("k", "v")));
    bytes.push(b' ');
    assert!(matches!(parse_record(&bytes), Err(KvsError::Serde(_))));
    let short = encode_command(&put("k", "v"));
    assert!(matches!(parse_record(&short[..short.len() - 1]), Err(KvsError::Serde(_))));
}

#[test]
fn value_of_record_gives_the_value_of_a_put() {
    assert_eq!(value_of_record(&encode_put("k", "the value")), Ok("the value".to_string()));
}

#[test]
fn value_of_record_refuses_a_remove() {
    assert_eq!(value_of_record(&encode_remove("k")), Err(KvsError::UnexceptedCommandType));
}

#[test]
fn value_of_record_refuses_what_is_no_record() {
    assert!(matches!(value_of_record(b"{}"), Err(KvsError::Serde(_))));
}
