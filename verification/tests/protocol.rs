use kvs::client::{get_reply, get_request, remove_request, set_request, unit_reply};
use kvs::protocol::{
    decode_request, decode_response, encode_get_response, encode_remove_response,
    encode_request, encode_set_response, GetResponse, RemoveResponse, Request, SetResponse,
    WireResponse,
};
use kvs::KvsError;

fn text(s: &str) -> String {
    s.to_string()
}

#[test]
fn requests_have_the_compact_tagged_form() {
    assert_eq!(
        encode_request(&Request::Get { key: text("k") }),
        b"{\"Get\":{\"key\":\"k\"}}".to_vec()
    );
    assert_eq!(
        encode_request(&Request::Put { key: text("k"), value: text("v") }),
        b"{\"Set\":{\"key\":\"k\",\"value\":\"v\"}}".to_vec()
    );
    assert_eq!(
        encode_request(&Request::Remove { key: text("k") }),
        b"{\"Remove\":{\"key\":\"k\"}}".to_vec()
    );
}

#[test]
fn a_request_reads_back_as_itself() {
    for req in [
        Request::Get { key: text("a \"key\"") },
        Request::Put { key: text(""), value: text("\u{e9}\n") },
        Request::Remove { key: text("k") },
    ] {
        let mut bytes = encode_request(&req);
        let len = bytes.len();
        assert_eq!(decode_request(&bytes), Ok((req.clone(), len)));
        bytes.extend_from_slice(b"{\"Get\":");
        assert_eq!(decode_request(&bytes), Ok((req, len)));
    }
}

#[test]
fn bytes_that_begin_no_request_fail_with_serde() {
    for input in [
        &b""[..],
        b"hello",
        b"{\"Get\":{\"key\":\"k\"}",
        b"{\"Get\":{\"key\":7}}",
        b"{\"Put\":{\"key\":\"k\",\"value\":\"v\"}}",
        b"{\"Ok\":null}",
    ] {
        assert!(matches!(decode_request(input), Err(KvsError::Serde(_))));
    }
}

#[test]
fn responses_have_the_compact_tagged_form() {
    assert_eq!(
        encode_get_response(&GetResponse::Value(Some(text("v")))),
        b"{\"Ok\":\"v\"}".to_vec()
    );
    assert_eq!(encode_get_response(&GetResponse::Value(None)), b"{\"Ok\":null}".to_vec());
    assert_eq!(
        encode_get_response(&GetResponse::Failure(text("bad"))),
        b"{\"Err\":\"bad\"}".to_vec()
    );
    assert_eq!(encode_set_response(&SetResponse::Done), b"{\"Ok\":null}".to_vec());
    assert_eq!(
        encode_set_response(&SetResponse::Failure(text("bad"))),
        b"{\"Err\":\"bad\"}".to_vec()
    );
    assert_eq!(encode_remove_response(&RemoveResponse::Done), b"{\"Ok\":null}".to_vec());
    assert_eq!(
        encode_remove_response(&RemoveResponse::Failure(text("Key not found"))),
        b"{\"Err\":\"Key not found\"}".to_vec()
    );
}

#[test]
fn a_response_reads_back_as_itself() {
    let value = encode_get_response(&GetResponse::Value(Some(text("null}"))));
    assert_eq!(decode_response(&value), Ok((WireResponse::Value(text("null}")), value.len())));
    let nothing = encode_set_response(&SetResponse::Done);
    assert_eq!(decode_response(&nothing), Ok((WireResponse::Nothing, 11)));
    let failure = encode_remove_response(&RemoveResponse::Failure(text("no")));
    assert_eq!(decode_response(&failure), Ok((WireResponse::Failure(text("no")), failure.len())));
    let mut two = value.clone();
    two.extend_from_slice(&nothing);
    assert_eq!(decode_response(&two), Ok((WireResponse::Value(text("null}")), value.len())));
}

#[test]
fn bytes_that_begin_no_response_fail_with_serde() {
    for input in [&b""[..], b"{\"Ok\":", b"{\"Ok\":nul}", b"{\"Ok\":\"v\"", b"{\"Err\":null}", b"{}"] {
        assert!(matches!(decode_response(input), Err(KvsError::Serde(_))));
    }
}

#[test]
fn the_client_sends_one_request_per_call() {
    assert_eq!(get_request(text("k")), b"{\"Get\":{\"key\":\"k\"}}".to_vec());
    assert_eq!(
        set_request(text("k"), text("v")),
        b"{\"Set\":{\"key\":\"k\",\"value\":\"v\"}}".to_vec()
    );
    assert_eq!(remove_request(text("k")), b"{\"Remove\":{\"key\":\"k\"}}".to_vec());
}

#[test]
fn the_client_takes_the_response_as_its_result() {
    assert_eq!(get_reply(b"{\"Ok\":\"v\"}"), Ok(Some(text("v"))));
    assert_eq!(get_reply(b"{\"Ok\":null}"), Ok(None));
    assert_eq!(get_reply(b"{\"Err\":\"boom\"}"), Err(KvsError::StringError(text("boom"))));
    assert!(matches!(get_reply(b"nonsense"), Err(KvsError::Serde(_))));
    assert_eq!(unit_reply(b"{\"Ok\":null}"), Ok(()));
    assert_eq!(
        unit_reply(b"{\"Err\":\"Key not found\"}"),
        Err(KvsError::StringError(text("Key not found")))
    );
    assert!(matches!(unit_reply(b"{\"Ok\":\"v\"}"), Err(KvsError::Serde(_))));
    assert!(matches!(unit_reply(b""), Err(KvsError::Serde(_))));
}
