use kvs::logdir::LogDir;
use kvs::protocol::{
    encode_request, GetResponse, RemoveResponse, Request, SetResponse,
};
use kvs::server::{get_response, remove_response, respond, serve, set_response};
use kvs::thread_pool::{RayonThreadPool, ThreadPool};
use kvs::{KvStore, KvsError, KvsServer};

fn text(s: &str) -> String {
    s.to_string()
}

fn fresh() -> KvStore {
    KvStore::open(LogDir::new()).unwrap()
}

#[test]
fn a_response_says_what_the_engine_returned() {
    assert_eq!(get_response(Ok(Some(text("v")))), GetResponse::Value(Some(text("v"))));
    assert_eq!(get_response(Ok(None)), GetResponse::Value(None));
    assert_eq!(
        get_response(Err(KvsError::UnexceptedCommandType)),
        GetResponse::Failure(text("Unexcepted command type"))
    );
    assert_eq!(set_response(Ok(())), SetResponse::Done);
    assert_eq!(
        set_response(Err(KvsError::Io(text("disk full")))),
        SetResponse::Failure(text("disk full"))
    );
    assert_eq!(remove_response(Ok(())), RemoveResponse::Done);
    assert_eq!(
        remove_response(Err(KvsError::KeyNotFound)),
        RemoveResponse::Failure(text("Key not found"))
    );
}

#[test]
fn respond_carries_out_one_request() {
    let mut store = fresh();
    let put = Request::Put { key: text("k"), value: text("v") };
    assert_eq!(respond(&mut store, put).0, b"{\"Ok\":null}".to_vec());
    assert_eq!(respond(&mut store, Request::Get { key: text("k") }).0, b"{\"Ok\":\"v\"}".to_vec());
    assert_eq!(
        respond(&mut store, Request::Remove { key: text("k") }).0,
        b"{\"Ok\":null}".to_vec()
    );
    assert_eq!(respond(&mut store, Request::Get { key: text("k") }).0, b"{\"Ok\":null}".to_vec());
    assert_eq!(
        respond(&mut store, Request::Remove { key: text("k") }).0,
        b"{\"Err\":\"Key not found\"}".to_vec()
    );
}

#[test]
fn serve_answers_the_requests_in_order() {
    let mut store = fresh();
    let mut input = Vec::new();
    for req in [
        Request::Put { key: text("key1"), value: text("value1") },
        Request::Get { key: text("key1") },
        Request::Put { key: text("key1"), value: text("value2") },
        Request::Get { key: text("key1") },
        Request::Remove { key: text("key1") },
        Request::Get { key: text("key1") },
        Request::Remove { key: text("key1") },
    ] {
        input.extend_from_slice(&encode_request(&req));
    }
    let (out, end, _) = serve(&mut store, &input);
    assert_eq!(end, Ok(()));
    assert_eq!(
        String::from_utf8(out).unwrap(),
        "{\"Ok\":null}{\"Ok\":\"value1\"}{\"Ok\":null}{\"Ok\":\"value2\"}\
         {\"Ok\":null}{\"Ok\":null}{\"Err\":\"Key not found\"}"
    );
    assert_eq!(store.get(text("key1")), Ok(None));
}

#[test]
fn serve_of_nothing_answers_nothing() {
    let mut store = fresh();
    let (out, end, _) = serve(&mut store, b"");
    assert_eq!(end, Ok(()));
    assert!(out.is_empty());
}

#[test]
fn serve_ends_at_the_first_malformed_request() {
    let mut store = fresh();
    let mut input = encode_request(&Request::Put { key: text("a"), value: text("1") });
    input.extend_from_slice(b"{\"Get\":{\"key\":");
    input.extend_from_slice(&encode_request(&Request::Put { key: text("b"), value: text("2") }));
    let (out, end, _) = serve(&mut store, &input);
    assert!(matches!(end, Err(KvsError::Serde(_))));
    assert_eq!(out, b"{\"Ok\":null}".to_vec());
    assert_eq!(store.get(text("a")), Ok(Some(text("1"))));
    assert_eq!(store.get(text("b")), Ok(None));
}

#[test]
fn a_server_is_its_engine_and_its_pool() {
    let mut store = fresh();
    store.set(text("k"), text("v")).unwrap();
    let pool = RayonThreadPool::new(2).unwrap();
    let server = KvsServer::new(store, pool);
    let (mut engine, pool) = server.into_parts();
    assert_eq!(engine.get(text("k")), Ok(Some(text("v"))));
    let (tx, rx) = std::sync::mpsc::channel();
    pool.spawn(move || {
        tx.send(41 + 1).unwrap();
    });
    assert_eq!(rx.recv(), Ok(42));
}

#[test]
fn a_rayon_pool_runs_every_job_once() {
    let pool = RayonThreadPool::new(4).unwrap();
    let (tx, rx) = std::sync::mpsc::channel();
    for i in 0..20u32 {
        let tx = tx.clone();
        pool.spawn(move || {
            tx.send(i).unwrap();
        });
    }
    let mut seen: Vec<u32> = (0..20).map(|_| rx.recv().unwrap()).collect();
    seen.sort_unstable();
    assert_eq!(seen, (0..20).collect::<Vec<u32>>());
}

#[test]
fn a_pool_that_was_built_is_taken_as_it_is() {
    let built = rayon::ThreadPoolBuilder::new().num_threads(3).build();
    let pool = match RayonThreadPool::from_built(built) {
        Ok(pool) => pool,
        Err(e) => panic!("{}", e.message()),
    };
    let (tx, rx) = std::sync::mpsc::channel();
    pool.spawn(move || {
        tx.send(rayon::current_num_threads()).unwrap();
    });
    assert_eq!(rx.recv(), Ok(3));
}

#[test]
fn a_failure_to_build_comes_back_as_its_message() {
    let _ = rayon::ThreadPoolBuilder::new().build_global();
    let e = rayon::ThreadPoolBuilder::new().build_global().unwrap_err();
    let text = e.to_string();
    assert_eq!(text, "The global thread pool has already been initialized.");
    match RayonThreadPool::from_built(Err(e)) {
        Err(KvsError::StringError(m)) => assert_eq!(m, text),
        _ => panic!("a failure to build gave no StringError"),
    }
}

