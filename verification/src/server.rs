//! The server's side of the protocol: a request is read, the engine is asked,
//! and the answer goes back, one request after the other.

use vstd::prelude::*;
use vstd::slice::slice_subrange;
use crate::engines::KvsEngine;
use crate::error::{message_of, KvsError};
use crate::protocol::{
    decode_request, encode_get_response, encode_remove_response, encode_set_response,
    read_request, response_bytes, response_reads_as, GetResponse, RemoveResponse, Request,
    RequestView, ResponseView, SetResponse,
};
use crate::thread_pool::ThreadPool;

verus! {

/// A server: an engine, and a pool of workers to serve connections on.
pub struct KvsServer<E: KvsEngine, P: ThreadPool> {
    engine: E,
    pool: P,
}

impl<E: KvsEngine, P: ThreadPool> KvsServer<E, P> {
    /// The engine that the server answers from.
    pub closed spec fn engine_view(&self) -> E {
        self.engine
    }

    /// The pool that the server's connections are served on.
    pub closed spec fn pool_view(&self) -> P {
        self.pool
    }

    /// A server that answers from `engine` and serves its connections on
    /// `pool`.
    pub fn new(engine: E, pool: P) -> (server: Self)
        ensures
            server.engine_view() == engine,
            server.pool_view() == pool,
    {
        KvsServer { engine, pool }
    }

    /// Takes the server apart again.
    pub fn into_parts(self) -> (parts: (E, P))
        ensures
            parts.0 == self.engine_view(),
            parts.1 == self.pool_view(),
    {
        (self.engine, self.pool)
    }
}

/// The answer to a `Get` for what the engine returned: the value or its
/// absence, or the message of the engine's error.
pub fn get_response(result: Result<Option<String>, KvsError>) -> (resp: GetResponse)
    ensures
        resp@ == match result {
            Ok(Some(v)) => ResponseView::Value(v@),
            Ok(None) => ResponseView::Nothing,
            Err(e) => ResponseView::Failure(message_of(e)),
        },
{
    match result {
        Ok(value) => GetResponse::Value(value),
        Err(e) => GetResponse::Failure(e.message()),
    }
}

/// The answer to a `Put` for what the engine returned.
pub fn set_response(result: Result<(), KvsError>) -> (resp: SetResponse)
    ensures
        resp@ == match result {
            Ok(()) => ResponseView::Nothing,
            Err(e) => ResponseView::Failure(message_of(e)),
        },
{
    match result {
        Ok(()) => SetResponse::Done,
        Err(e) => SetResponse::Failure(e.message()),
    }
}

/// The answer to a `Remove` for what the engine returned.
pub fn remove_response(result: Result<(), KvsError>) -> (resp: RemoveResponse)
    ensures
        resp@ == match result {
            Ok(()) => ResponseView::Nothing,
            Err(e) => ResponseView::Failure(message_of(e)),
        },
{
    match result {
        Ok(()) => RemoveResponse::Done,
        Err(e) => RemoveResponse::Failure(e.message()),
    }
}

/// Whether `resp` answers `req` for an engine that stood for `before` and now
/// stands for `after`. A `Get` leaves the engine as it was and is answered by
/// the key's value or its absence; a `Put` or `Remove` that is answered by
/// success has been carried out. Any request may be answered by a failure.
pub open spec fn answers(before: Map<Seq<char>, Seq<char>>, req: RequestView, resp: ResponseView, after: Map<Seq<char>, Seq<char>>) -> bool {
    match req {
        RequestView::Get { key } => after == before && match resp {
            ResponseView::Value(v) => before.contains_key(key) && before[key] == v,
            ResponseView::Nothing => !before.contains_key(key),
            ResponseView::Failure(_) => true,
        },
        RequestView::Put { key, value } => match resp {
            ResponseView::Value(_) => false,
            ResponseView::Nothing => after == before.insert(key, value),
            ResponseView::Failure(_) => true,
        },
        RequestView::Remove { key } => match resp {
            ResponseView::Value(_) => false,
            ResponseView::Nothing => before.contains_key(key) && after == before.remove(key),
            ResponseView::Failure(_) => true,
        },
    }
}

/// Carries out one request on the engine and returns the response, as it
/// goes on the wire.
pub fn respond<E: KvsEngine>(engine: &mut E, req: Request) -> (r: (Vec<u8>, Ghost<ResponseView>))
    requires
        old(engine).inv(),
    ensures
        final(engine).inv(),
        r.0@ == response_bytes(r.1@),
        response_reads_as(r.0@, r.1@),
        answers(old(engine).model(), req@, r.1@, final(engine).model()),
{
    match req {
        Request::Get { key } => {
            let resp = get_response(engine.get(key));
            (encode_get_response(&resp), Ghost(resp@))
        },
        Request::Put { key, value } => {
            let resp = set_response(engine.set(key, value));
            (encode_set_response(&resp), Ghost(resp@))
        },
        Request::Remove { key } => {
            let resp = remove_response(engine.remove(key));
            (encode_remove_response(&resp), Ghost(resp@))
        },
    }
}

/// One request of a connection and its answer: the request, which spans
/// `len` bytes at offset `at` of the input; the response; and what the engine
/// stands for afterwards.
pub struct Exchange {
    pub req: RequestView,
    pub at: nat,
    pub len: nat,
    pub resp: ResponseView,
    pub after: Map<Seq<char>, Seq<char>>,
}

/// What the engine stands for before exchange `i` of `trace`.
pub open spec fn model_before(start: Map<Seq<char>, Seq<char>>, trace: Seq<Exchange>, i: int) -> Map<Seq<char>, Seq<char>> {
    if i == 0 {
        start
    } else {
        trace[i - 1].after
    }
}

/// Where in the input exchange `i` of `trace` begins: where the one before
/// it ends.
pub open spec fn offset_before(trace: Seq<Exchange>, i: int) -> nat {
    if i == 0 {
        0
    } else {
        trace[i - 1].at + trace[i - 1].len
    }
}

/// Where in the input the exchanges of `trace` end.
pub open spec fn end_of(trace: Seq<Exchange>) -> nat {
    if trace.len() == 0 {
        0
    } else {
        trace.last().at + trace.last().len
    }
}

/// Whether `trace` is a run of a connection on `input` from an engine that
/// stands for `start`: the requests lie one after the other from the head of
/// `input`, and each is answered in its turn.
#[verifier::opaque]
pub open spec fn trace_ok(start: Map<Seq<char>, Seq<char>>, input: Seq<u8>, trace: Seq<Exchange>) -> bool {
    forall|i: int|
        0 <= i < trace.len() ==> {
            &&& (#[trigger] trace[i]).at == offset_before(trace, i)
            &&& trace[i].at <= input.len()
            &&& read_request(input.skip(trace[i].at as int)) == Some((trace[i].req, trace[i].len))
            &&& answers(model_before(start, trace, i), trace[i].req, trace[i].resp, trace[i].after)
        }
}

/// A run that is extended by the exchange that comes next is a run.
proof fn lemma_trace_push(start: Map<Seq<char>, Seq<char>>, input: Seq<u8>, trace: Seq<Exchange>, e: Exchange)
    requires
        trace_ok(start, input, trace),
        e.at == end_of(trace),
        e.at <= input.len(),
        read_request(input.skip(e.at as int)) == Some((e.req, e.len)),
        answers(model_before(start, trace, trace.len() as int), e.req, e.resp, e.after),
    ensures
        trace_ok(start, input, trace.push(e)),
        replies(trace.push(e)) == replies(trace) + response_bytes(e.resp),
        end_of(trace.push(e)) == e.at + e.len,
        model_before(start, trace.push(e), (trace.len() + 1) as int) == e.after,
{
    reveal(trace_ok);
    let t = trace.push(e);
    assert(t.drop_last() =~= trace);
    assert forall|i: int| 0 <= i < t.len() implies {
        &&& (#[trigger] t[i]).at == offset_before(t, i)
        &&& t[i].at <= input.len()
        &&& read_request(input.skip(t[i].at as int)) == Some((t[i].req, t[i].len))
        &&& answers(model_before(start, t, i), t[i].req, t[i].resp, t[i].after)
    } by {
        if i < trace.len() {
            assert(t[i] == trace[i]);
            if i > 0 {
                assert(t[i - 1] == trace[i - 1]);
            }
        } else {
            if i > 0 {
                assert(t[i - 1] == trace[i - 1]);
            }
        }
    }
}

/// The responses of `trace` as they go on the wire, one after the other.
pub open spec fn replies(trace: Seq<Exchange>) -> Seq<u8>
    decreases trace.len(),
{
    if trace.len() == 0 {
        Seq::empty()
    } else {
        replies(trace.drop_last()) + response_bytes(trace.last().resp)
    }
}

/// Serves one connection: reads the requests of `input` one after the other,
/// carries each out on the engine, and returns the responses in the same
/// order. Ends with `Ok` at the end of `input`, and with `Serde` at the first
/// byte that begins no request; the responses up to there are returned all
/// the same.
pub fn serve<E: KvsEngine>(engine: &mut E, input: &[u8]) -> (r: (
    Vec<u8>,
    Result<(), KvsError>,
    Ghost<Seq<Exchange>>,
))
    requires
        old(engine).inv(),
    ensures
        final(engine).inv(),
        trace_ok(old(engine).model(), input@, r.2@),
        r.0@ == replies(r.2@),
        final(engine).model() == model_before(old(engine).model(), r.2@, r.2@.len() as int),
        end_of(r.2@) <= input@.len(),
        match r.1 {
            Ok(()) => end_of(r.2@) == input@.len(),
            Err(e) => e is Serde && end_of(r.2@) < input@.len() && read_request(
                input@.skip(end_of(r.2@) as int),
            ) is None,
        },
{
    let mut out: Vec<u8> = Vec::new();
    let mut pos: usize = 0;
    let ghost mut trace: Seq<Exchange> = Seq::empty();
    let ghost start = engine.model();
    proof {
        reveal(trace_ok);
    }
    while pos < input.len()
        invariant
            engine.inv(),
            start == old(engine).model(),
            pos <= input@.len(),
            pos == end_of(trace),
            trace_ok(start, input@, trace),
            out@ == replies(trace),
            engine.model() == model_before(start, trace, trace.len() as int),
        decreases input@.len() - pos,
    {
        match serve_next(engine, input, pos, &mut out, Ghost(start), Ghost(trace)) {
            Ok((next, longer)) => {
                pos = next;
                proof {
                    trace = longer@;
                }
            },
            Err(e) => {
                return (out, Err(e), Ghost(trace));
            },
        }
    }
    (out, Ok(()), Ghost(trace))
}

/// Serves the request that begins at offset `pos` of `input`, after the
/// exchanges of `trace`, and appends the response to `out`. Returns the offset
/// at which the request ends.
fn serve_next<E: KvsEngine>(
    engine: &mut E,
    input: &[u8],
    pos: usize,
    out: &mut Vec<u8>,
    Ghost(start): Ghost<Map<Seq<char>, Seq<char>>>,
    Ghost(trace): Ghost<Seq<Exchange>>,
) -> (r: Result<(usize, Ghost<Seq<Exchange>>), KvsError>)
    requires
        old(engine).inv(),
        pos < input@.len(),
        pos == end_of(trace),
        trace_ok(start, input@, trace),
        old(out)@ == replies(trace),
        old(engine).model() == model_before(start, trace, trace.len() as int),
    ensures
        final(engine).inv(),
        match r {
            Ok((next, longer)) => {
                &&& pos < next <= input@.len()
                &&& next == end_of(longer@)
                &&& trace_ok(start, input@, longer@)
                &&& final(out)@ == replies(longer@)
                &&& final(engine).model() == model_before(start, longer@, longer@.len() as int)
            },
            Err(e) => {
                &&& e is Serde
                &&& read_request(input@.skip(pos as int)) is None
                &&& final(out)@ == old(out)@
                &&& final(engine).model() == old(engine).model()
            },
        },
{
    let rest = slice_subrange(input, pos, input.len());
    match decode_request(rest) {
        Ok((req, n)) => {
            let ghost request = req@;
            let answer = respond(engine, req);
            let mut bytes = answer.0;
            let ghost e = Exchange {
                req: request,
                at: pos as nat,
                len: n as nat,
                resp: answer.1@,
                after: engine.model(),
            };
            proof {
                lemma_trace_push(start, input@, trace, e);
            }
            out.append(&mut bytes);
            Ok((pos + n, Ghost(trace.push(e))))
        },
        Err(e) => Err(e),
    }
}

} // verus!
