//! The wire protocol: requests and responses, and their form on the wire.
//!
//! A request is one JSON object, `{"Get":{"key":K}}`,
//! `{"Set":{"key":K,"value":V}}` or `{"Remove":{"key":K}}`; a response is
//! `{"Ok":V}`, `{"Ok":null}` or `{"Err":M}`. `K`, `V` and `M` are JSON string
//! literals. Messages follow one another with nothing in between.

use vstd::prelude::*;
use vstd::slice::slice_subrange;
use crate::command::{
    encode_put, encode_remove, has_prefix, push_json_string, read_command, read_field,
    read_field_exec, read_record, reads_as, record_bytes, record_tail, record_tail_bytes,
    remove_head, set_head, string_literal, Command, CommandView,
};
use crate::error::KvsError;
use crate::json::json_string;

verus! {

/// What a client asks of the server.
#[derive(Debug, Clone, PartialEq, Eq)]
pub enum Request {
    /// The value of `key`.
    Get { key: String },
    /// Bind `key` to `value`.
    Put { key: String, value: String },
    /// Unbind `key`.
    Remove { key: String },
}

/// A request as contracts speak of it.
pub enum RequestView {
    Get { key: Seq<char> },
    Put { key: Seq<char>, value: Seq<char> },
    Remove { key: Seq<char> },
}

impl View for Request {
    type V = RequestView;

    open spec fn view(&self) -> RequestView {
        match self {
            Request::Get { key } => RequestView::Get { key: key@ },
            Request::Put { key, value } => RequestView::Put { key: key@, value: value@ },
            Request::Remove { key } => RequestView::Remove { key: key@ },
        }
    }
}

/// The answer to a `Get`.
#[derive(Debug, Clone, PartialEq, Eq)]
pub enum GetResponse {
    /// The value of the key, or `None` where it has none.
    Value(Option<String>),
    /// The engine failed, with this message.
    Failure(String),
}

/// The answer to a `Put`.
#[derive(Debug, Clone, PartialEq, Eq)]
pub enum SetResponse {
    /// The key is bound.
    Done,
    /// The engine failed, with this message.
    Failure(String),
}

/// The answer to a `Remove`.
#[derive(Debug, Clone, PartialEq, Eq)]
pub enum RemoveResponse {
    /// The key is unbound.
    Done,
    /// The engine failed, with this message.
    Failure(String),
}

/// A response as contracts speak of it: a value, nothing, or a failure.
pub enum ResponseView {
    Value(Seq<char>),
    Nothing,
    Failure(Seq<char>),
}

impl View for GetResponse {
    type V = ResponseView;

    open spec fn view(&self) -> ResponseView {
        match self {
            GetResponse::Value(Some(v)) => ResponseView::Value(v@),
            GetResponse::Value(None) => ResponseView::Nothing,
            GetResponse::Failure(m) => ResponseView::Failure(m@),
        }
    }
}

impl View for SetResponse {
    type V = ResponseView;

    open spec fn view(&self) -> ResponseView {
        match self {
            SetResponse::Done => ResponseView::Nothing,
            SetResponse::Failure(m) => ResponseView::Failure(m@),
        }
    }
}

impl View for RemoveResponse {
    type V = ResponseView;

    open spec fn view(&self) -> ResponseView {
        match self {
            RemoveResponse::Done => ResponseView::Nothing,
            RemoveResponse::Failure(m) => ResponseView::Failure(m@),
        }
    }
}

/// `{"Get":{"key":`
pub open spec fn get_head() -> Seq<u8> {
    seq![0x7bu8, 0x22u8, 0x47u8, 0x65u8, 0x74u8, 0x22u8, 0x3au8, 0x7bu8, 0x22u8, 0x6bu8, 0x65u8, 0x79u8, 0x22u8, 0x3au8]
}

/// `{"Ok":`
pub open spec fn ok_head() -> Seq<u8> {
    seq![0x7bu8, 0x22u8, 0x4fu8, 0x6bu8, 0x22u8, 0x3au8]
}

/// `{"Err":`
pub open spec fn err_head() -> Seq<u8> {
    seq![0x7bu8, 0x22u8, 0x45u8, 0x72u8, 0x72u8, 0x22u8, 0x3au8]
}

/// `null}`
pub open spec fn null_tail() -> Seq<u8> {
    seq![0x6eu8, 0x75u8, 0x6cu8, 0x6cu8, 0x7du8]
}

/// `}`
pub open spec fn close() -> Seq<u8> {
    seq![0x7du8]
}

/// The bytes of a request on the wire.
pub open spec fn request_bytes(r: RequestView) -> Seq<u8> {
    match r {
        RequestView::Get { key } => get_head() + json_string(key) + record_tail(),
        RequestView::Put { key, value } => record_bytes(CommandView::Put { key, value }),
        RequestView::Remove { key } => record_bytes(CommandView::Remove { key }),
    }
}

/// Reads a `Get` request from the head of `input`.
pub open spec fn read_get(input: Seq<u8>) -> Option<(RequestView, nat)> {
    match read_field(input, get_head()) {
        Some((key, n1)) => if record_tail().is_prefix_of(input.skip(n1 as int)) {
            Some((RequestView::Get { key }, n1 + 2))
        } else {
            None
        },
        None => None,
    }
}

/// Reads one request from the head of `input`: the request and the number of
/// bytes it spans, or `None` where `input` does not begin with a request.
pub open spec fn read_request(input: Seq<u8>) -> Option<(RequestView, nat)> {
    match read_record(input) {
        Some((CommandView::Put { key, value }, n)) => Some((RequestView::Put { key, value }, n)),
        Some((CommandView::Remove { key }, n)) => Some((RequestView::Remove { key }, n)),
        None => read_get(input),
    }
}

/// `chunk` is a request `r` on the wire that reads back as `r` whatever
/// follows it.
pub open spec fn request_reads_as(chunk: Seq<u8>, r: RequestView) -> bool {
    forall|rest: Seq<u8>| #[trigger] read_request(chunk + rest) == Some((r, chunk.len()))
}

/// The bytes of a response on the wire.
pub open spec fn response_bytes(r: ResponseView) -> Seq<u8> {
    match r {
        ResponseView::Value(v) => ok_head() + json_string(v) + close(),
        ResponseView::Nothing => ok_head() + null_tail(),
        ResponseView::Failure(m) => err_head() + json_string(m) + close(),
    }
}

/// Reads one response from the head of `input`: the response and the number
/// of bytes it spans, or `None` where `input` does not begin with a response.
pub open spec fn read_response(input: Seq<u8>) -> Option<(ResponseView, nat)> {
    if ok_head().is_prefix_of(input) {
        if null_tail().is_prefix_of(input.skip(6)) {
            Some((ResponseView::Nothing, 11))
        } else {
            match read_field(input, ok_head()) {
                Some((v, n)) => if close().is_prefix_of(input.skip(n as int)) {
                    Some((ResponseView::Value(v), n + 1))
                } else {
                    None
                },
                None => None,
            }
        }
    } else {
        match read_field(input, err_head()) {
            Some((m, n)) => if close().is_prefix_of(input.skip(n as int)) {
                Some((ResponseView::Failure(m), n + 1))
            } else {
                None
            },
            None => None,
        }
    }
}

/// `chunk` is a response `r` on the wire that reads back as `r` whatever
/// follows it.
pub open spec fn response_reads_as(chunk: Seq<u8>, r: ResponseView) -> bool {
    forall|rest: Seq<u8>| #[trigger] read_response(chunk + rest) == Some((r, chunk.len()))
}

/// A response as it is read from the wire, before it is taken as the answer
/// to a particular request.
#[derive(Debug, Clone, PartialEq, Eq)]
pub enum WireResponse {
    /// `{"Ok":V}`
    Value(String),
    /// `{"Ok":null}`
    Nothing,
    /// `{"Err":M}`
    Failure(String),
}

impl View for WireResponse {
    type V = ResponseView;

    open spec fn view(&self) -> ResponseView {
        match self {
            WireResponse::Value(v) => ResponseView::Value(v@),
            WireResponse::Nothing => ResponseView::Nothing,
            WireResponse::Failure(m) => ResponseView::Failure(m@),
        }
    }
}

fn get_head_bytes() -> (v: Vec<u8>)
    ensures
        v@ == get_head(),
{
    let v = vec![0x7bu8, 0x22u8, 0x47u8, 0x65u8, 0x74u8, 0x22u8, 0x3au8, 0x7bu8, 0x22u8, 0x6bu8, 0x65u8, 0x79u8, 0x22u8, 0x3au8];
    assert(v@ =~= get_head());
    v
}

fn ok_head_bytes() -> (v: Vec<u8>)
    ensures
        v@ == ok_head(),
{
    let v = vec![0x7bu8, 0x22u8, 0x4fu8, 0x6bu8, 0x22u8, 0x3au8];
    assert(v@ =~= ok_head());
    v
}

fn err_head_bytes() -> (v: Vec<u8>)
    ensures
        v@ == err_head(),
{
    let v = vec![0x7bu8, 0x22u8, 0x45u8, 0x72u8, 0x72u8, 0x22u8, 0x3au8];
    assert(v@ =~= err_head());
    v
}

fn null_tail_bytes() -> (v: Vec<u8>)
    ensures
        v@ == null_tail(),
{
    let v = vec![0x6eu8, 0x75u8, 0x6cu8, 0x6cu8, 0x7du8];
    assert(v@ =~= null_tail());
    v
}

fn close_bytes() -> (v: Vec<u8>)
    ensures
        v@ == close(),
{
    let v = vec![0x7du8];
    assert(v@ =~= close());
    v
}

/// A `Put` or `Remove` request is the record of its command, and reads back
/// as itself.
proof fn lemma_command_request(chunk: Seq<u8>, c: CommandView)
    requires
        reads_as(chunk, c),
    ensures
        request_reads_as(
            chunk,
            match c {
                CommandView::Put { key, value } => RequestView::Put { key, value },
                CommandView::Remove { key } => RequestView::Remove { key },
            },
        ),
{
    assert forall|rest: Seq<u8>| #[trigger]
        read_request(chunk + rest) == Some(
            (
                match c {
                    CommandView::Put { key, value } => RequestView::Put { key, value },
                    CommandView::Remove { key } => RequestView::Remove { key },
                },
                chunk.len(),
            ),
        ) by {
        assert(crate::command::read_record(chunk + rest) == Some((c, chunk.len())));
    }
}

/// A framed `Get` request reads back as itself, whatever follows it.
proof fn lemma_get_reads(tk: Seq<u8>, k: Seq<char>)
    requires
        string_literal(tk, k),
    ensures
        request_reads_as(get_head() + tk + record_tail(), RequestView::Get { key: k }),
{
    let chunk = get_head() + tk + record_tail();
    assert forall|rest: Seq<u8>| #[trigger]
        read_request(chunk + rest) == Some((RequestView::Get { key: k }, chunk.len())) by {
        let input = chunk + rest;
        assert(input =~= get_head() + tk + (record_tail() + rest));
        crate::command::lemma_read_field(get_head(), tk, k, record_tail() + rest);
        let n1 = get_head().len() + tk.len();
        assert(input.skip(n1 as int) =~= record_tail() + rest);
        assert((record_tail() + rest).subrange(0, 2) =~= record_tail());
        assert(input[2] == 0x47u8);
        assert(!set_head().is_prefix_of(input)) by {
            if set_head().is_prefix_of(input) {
                assert(input.subrange(0, 14)[2] == set_head()[2]);
            }
        }
        assert(!remove_head().is_prefix_of(input)) by {
            if remove_head().is_prefix_of(input) {
                assert(input.subrange(0, 17)[2] == remove_head()[2]);
            }
        }
    }
}

/// Puts a request on the wire.
pub fn encode_request(req: &Request) -> (out: Vec<u8>)
    ensures
        out@ == request_bytes(req@),
        request_reads_as(out@, req@),
{
    match req {
        Request::Get { key } => {
            let mut out = get_head_bytes();
            push_json_string(&mut out, key.as_str());
            let mut tail = record_tail_bytes();
            out.append(&mut tail);
            proof {
                lemma_get_reads(json_string(key@), key@);
            }
            out
        },
        Request::Put { key, value } => {
            let out = encode_put(key.as_str(), value.as_str());
            proof {
                lemma_command_request(out@, CommandView::Put { key: key@, value: value@ });
            }
            out
        },
        Request::Remove { key } => {
            let out = encode_remove(key.as_str());
            proof {
                lemma_command_request(out@, CommandView::Remove { key: key@ });
            }
            out
        },
    }
}

/// Reads one request from the head of `input`: the request and the number of
/// bytes it spans. Fails with `Serde` where `input` does not begin with a
/// request.
pub fn decode_request(input: &[u8]) -> (r: Result<(Request, usize), KvsError>)
    ensures
        match r {
            Ok((req, n)) => read_request(input@) == Some((req@, n as nat)) && 0 < n <= input@.len(),
            Err(e) => read_request(input@) is None && e is Serde,
        },
{
    match read_command(input) {
        Ok((Command::Put { key, value }, n)) => {
            return Ok((Request::Put { key, value }, n));
        },
        Ok((Command::Remove { key }, n)) => {
            return Ok((Request::Remove { key }, n));
        },
        Err(_) => {},
    }
    let head = get_head_bytes();
    match read_field_exec(input, &head) {
        Ok((key, n1)) => {
            let after_key = slice_subrange(input, n1, input.len());
            assert(after_key@ == input@.skip(n1 as int));
            let tail = record_tail_bytes();
            if has_prefix(after_key, &tail) {
                Ok((Request::Get { key }, n1 + 2))
            } else {
                Err(KvsError::Serde("a request is not closed".to_string()))
            }
        },
        Err(e) => Err(e),
    }
}

/// Puts `{"Ok":V}` on the wire.
fn encode_value(v: &str) -> (out: Vec<u8>)
    ensures
        out@ == response_bytes(ResponseView::Value(v@)),
        response_reads_as(out@, ResponseView::Value(v@)),
{
    let mut out = ok_head_bytes();
    push_json_string(&mut out, v);
    let mut tail = close_bytes();
    out.append(&mut tail);
    proof {
        let tv = json_string(v@);
        assert forall|rest: Seq<u8>| #[trigger]
            read_response(out@ + rest) == Some((ResponseView::Value(v@), out@.len())) by {
            let input = out@ + rest;
            assert(input =~= ok_head() + tv + (close() + rest));
            assert(input.subrange(0, 6) =~= ok_head());
            crate::command::lemma_read_field(ok_head(), tv, v@, close() + rest);
            assert(input.skip(6)[0] == 0x22u8);
            assert(!null_tail().is_prefix_of(input.skip(6))) by {
                if null_tail().is_prefix_of(input.skip(6)) {
                    assert(input.skip(6).subrange(0, 5)[0] == null_tail()[0]);
                }
            }
            assert(input.skip((6 + tv.len()) as int) =~= close() + rest);
            assert((close() + rest).subrange(0, 1) =~= close());
        }
    }
    out
}

/// Puts `{"Ok":null}` on the wire.
fn encode_nothing() -> (out: Vec<u8>)
    ensures
        out@ == response_bytes(ResponseView::Nothing),
        response_reads_as(out@, ResponseView::Nothing),
{
    let mut out = ok_head_bytes();
    let mut tail = null_tail_bytes();
    out.append(&mut tail);
    proof {
        assert forall|rest: Seq<u8>| #[trigger]
            read_response(out@ + rest) == Some((ResponseView::Nothing, out@.len())) by {
            let input = out@ + rest;
            assert(input.subrange(0, 6) =~= ok_head());
            assert(input.skip(6) =~= null_tail() + rest);
            assert((null_tail() + rest).subrange(0, 5) =~= null_tail());
        }
    }
    out
}

/// Puts `{"Err":M}` on the wire.
fn encode_failure(m: &str) -> (out: Vec<u8>)
    ensures
        out@ == response_bytes(ResponseView::Failure(m@)),
        response_reads_as(out@, ResponseView::Failure(m@)),
{
    let mut out = err_head_bytes();
    push_json_string(&mut out, m);
    let mut tail = close_bytes();
    out.append(&mut tail);
    proof {
        let tm = json_string(m@);
        assert forall|rest: Seq<u8>| #[trigger]
            read_response(out@ + rest) == Some((ResponseView::Failure(m@), out@.len())) by {
            let input = out@ + rest;
            assert(input =~= err_head() + tm + (close() + rest));
            assert(input[2] == 0x45u8);
            assert(!ok_head().is_prefix_of(input)) by {
                if ok_head().is_prefix_of(input) {
                    assert(input.subrange(0, 6)[2] == ok_head()[2]);
                }
            }
            crate::command::lemma_read_field(err_head(), tm, m@, close() + rest);
            assert(input.skip((7 + tm.len()) as int) =~= close() + rest);
            assert((close() + rest).subrange(0, 1) =~= close());
        }
    }
    out
}

/// Puts the answer to a `Get` on the wire.
pub fn encode_get_response(resp: &GetResponse) -> (out: Vec<u8>)
    ensures
        out@ == response_bytes(resp@),
        response_reads_as(out@, resp@),
{
    match resp {
        GetResponse::Value(Some(v)) => encode_value(v.as_str()),
        GetResponse::Value(None) => encode_nothing(),
        GetResponse::Failure(m) => encode_failure(m.as_str()),
    }
}

/// Puts the answer to a `Put` on the wire.
pub fn encode_set_response(resp: &SetResponse) -> (out: Vec<u8>)
    ensures
        out@ == response_bytes(resp@),
        response_reads_as(out@, resp@),
{
    match resp {
        SetResponse::Done => encode_nothing(),
        SetResponse::Failure(m) => encode_failure(m.as_str()),
    }
}

/// Puts the answer to a `Remove` on the wire.
pub fn encode_remove_response(resp: &RemoveResponse) -> (out: Vec<u8>)
    ensures
        out@ == response_bytes(resp@),
        response_reads_as(out@, resp@),
{
    match resp {
        RemoveResponse::Done => encode_nothing(),
        RemoveResponse::Failure(m) => encode_failure(m.as_str()),
    }
}

/// Reads one response from the head of `input`: the response and the number
/// of bytes it spans. Fails with `Serde` where `input` does not begin with a
/// response.
pub fn decode_response(input: &[u8]) -> (r: Result<(WireResponse, usize), KvsError>)
    ensures
        match r {
            Ok((resp, n)) => read_response(input@) == Some((resp@, n as nat)) && 0 < n
                <= input@.len(),
            Err(e) => read_response(input@) is None && e is Serde,
        },
{
    let ok = ok_head_bytes();
    let shut = close_bytes();
    if has_prefix(input, &ok) {
        let after_head = slice_subrange(input, 6, input.len());
        assert(after_head@ == input@.skip(6));
        let null = null_tail_bytes();
        if has_prefix(after_head, &null) {
            return Ok((WireResponse::Nothing, 11));
        }
        match read_field_exec(input, &ok) {
            Ok((v, n)) => {
                let after = slice_subrange(input, n, input.len());
                assert(after@ == input@.skip(n as int));
                if has_prefix(after, &shut) {
                    Ok((WireResponse::Value(v), n + 1))
                } else {
                    Err(KvsError::Serde("a response is not closed".to_string()))
                }
            },
            Err(e) => Err(e),
        }
    } else {
        let err = err_head_bytes();
        match read_field_exec(input, &err) {
            Ok((m, n)) => {
                let after = slice_subrange(input, n, input.len());
                assert(after@ == input@.skip(n as int));
                if has_prefix(after, &shut) {
                    Ok((WireResponse::Failure(m), n + 1))
                } else {
                    Err(KvsError::Serde("a response is not closed".to_string()))
                }
            },
            Err(e) => Err(e),
        }
    }
}

} // verus!
