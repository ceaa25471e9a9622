//! The client's side of the protocol: which request goes out for a call, and
//! what the call returns for the response that comes back.

use vstd::prelude::*;
use crate::error::KvsError;
use crate::protocol::{
    decode_response, encode_request, read_response, request_bytes, request_reads_as, Request,
    RequestView, ResponseView, WireResponse,
};

verus! {

/// The request that asks for the value of `key`.
pub fn get_request(key: String) -> (out: Vec<u8>)
    ensures
        out@ == request_bytes(RequestView::Get { key: key@ }),
        request_reads_as(out@, RequestView::Get { key: key@ }),
{
    encode_request(&Request::Get { key })
}

/// The request that binds `key` to `value`.
pub fn set_request(key: String, value: String) -> (out: Vec<u8>)
    ensures
        out@ == request_bytes(RequestView::Put { key: key@, value: value@ }),
        request_reads_as(out@, RequestView::Put { key: key@, value: value@ }),
{
    encode_request(&Request::Put { key, value })
}

/// The request that unbinds `key`.
pub fn remove_request(key: String) -> (out: Vec<u8>)
    ensures
        out@ == request_bytes(RequestView::Remove { key: key@ }),
        request_reads_as(out@, RequestView::Remove { key: key@ }),
{
    encode_request(&Request::Remove { key })
}

/// What `get` returns for the response at the head of `input`: the value, or
/// `None` where the key has none. A failure that the server reports comes
/// back as `StringError` with the server's message; bytes that are no
/// response give `Serde`.
pub fn get_reply(input: &[u8]) -> (r: Result<Option<String>, KvsError>)
    ensures
        match read_response(input@) {
            Some((ResponseView::Value(v), _)) => r matches Ok(Some(s)) && s@ == v,
            Some((ResponseView::Nothing, _)) => r matches Ok(None),
            Some((ResponseView::Failure(m), _)) => r matches Err(KvsError::StringError(s)) && s@
                == m,
            None => r matches Err(KvsError::Serde(_)),
        },
{
    match decode_response(input) {
        Ok((WireResponse::Value(v), _)) => Ok(Some(v)),
        Ok((WireResponse::Nothing, _)) => Ok(None),
        Ok((WireResponse::Failure(m), _)) => Err(KvsError::StringError(m)),
        Err(e) => Err(e),
    }
}

/// What `set` and `remove` return for the response at the head of `input`.
/// A failure that the server reports comes back as `StringError` with the
/// server's message; a response that carries a value, and bytes that are no
/// response, give `Serde`.
pub fn unit_reply(input: &[u8]) -> (r: Result<(), KvsError>)
    ensures
        match read_response(input@) {
            Some((ResponseView::Nothing, _)) => r is Ok,
            Some((ResponseView::Failure(m), _)) => r matches Err(KvsError::StringError(s)) && s@
                == m,
            _ => r matches Err(KvsError::Serde(_)),
        },
{
    match decode_response(input) {
        Ok((WireResponse::Nothing, _)) => Ok(()),
        Ok((WireResponse::Failure(m), _)) => Err(KvsError::StringError(m)),
        Ok((WireResponse::Value(_), _)) => Err(
            KvsError::Serde("a value where none is expected".to_string()),
        ),
        Err(e) => Err(e),
    }
}

} // verus!
