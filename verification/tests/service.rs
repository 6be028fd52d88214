use std::sync::{Arc, Mutex};

use kvs::engines::engine_agrees;
use kvs::protocol::{is_bound, read_reply, serve, value_read, write_reply, written};
use kvs::{KvStore, KvsEngine, KvsError, Request, Response};

fn text(s: &str) -> String {
    s.to_string()
}

#[derive(Clone)]
struct Shared {
    store: Arc<Mutex<KvStore>>,
}

impl Shared {
    fn new() -> Shared {
        Shared { store: Arc::new(Mutex::new(KvStore::new(text("dir")))) }
    }
}

impl KvsEngine for Shared {
    fn set(&self, key: String, value: String) -> Result<(), KvsError> {
        self.store.lock().unwrap().set(key, value)
    }

    fn get(&self, key: String) -> Result<Option<String>, KvsError> {
        self.store.lock().unwrap().get(key)
    }

    fn remove(&self, key: String) -> Result<(), KvsError> {
        self.store.lock().unwrap().remove(key)
    }
}

#[test]
fn every_error_has_its_text() {
    assert_eq!(KvsError::KeyNotFound(text("missing")).message(), "the key `missing` is not exist");
    assert_eq!(KvsError::RecordError().message(), "record have error");
    assert_eq!(KvsError::Unknown.message(), "unknown error");
    assert_eq!(
        KvsError::ServerRespError(text("boom")).message(),
        "failed to exec command, server return error: `boom`"
    );
    assert_eq!(KvsError::IOError(text("disk full")).message(), "disk full");
    assert_eq!(KvsError::SledError(text("sled")).message(), "sled");
    assert_eq!(KvsError::RayonBuilderError(text("pool")).message(), "pool");
    match kvs::codec::decode_entry("{".as_bytes()) {
        Err(e) => assert!(e.message().contains("EOF")),
        Ok(_) => panic!("a lone brace is no record"),
    }
}

#[test]
fn replies_follow_the_engine() {
    let ok = write_reply(Ok(()));
    assert!(ok.is_ok);
    assert_eq!(ok.data, "");
    let failed = write_reply(Err(KvsError::KeyNotFound(text("k"))));
    assert!(!failed.is_ok);
    assert_eq!(failed.data, "the key `k` is not exist");
    let found = read_reply(Ok(Some(text("v"))));
    assert!(found.is_ok);
    assert_eq!(found.data, "v");
    let absent = read_reply(Ok(None));
    assert!(absent.is_ok);
    assert_eq!(absent.data, "");
    let broken = read_reply(Err(KvsError::Unknown));
    assert!(!broken.is_ok);
    assert_eq!(broken.data, "unknown error");
}

#[test]
fn the_client_reads_replies() {
    assert!(matches!(written(Response::new(true, text(""))), Ok(())));
    assert!(matches!(written(Response::new(false, text("no"))), Err(KvsError::ServerRespError(t)) if t == "no"));
    assert!(matches!(value_read(Response::new(true, text("v"))), Ok(Some(v)) if v == "v"));
    assert!(matches!(value_read(Response::new(true, text(""))), Ok(None)));
    assert!(matches!(value_read(Response::new(false, text("no"))), Err(KvsError::ServerRespError(t)) if t == "no"));
    assert!(matches!(is_bound(Response::new(true, text("v"))), Ok(true)));
    assert!(matches!(is_bound(Response::new(true, text(""))), Ok(false)));
    assert!(matches!(is_bound(Response::new(false, text("no"))), Err(KvsError::ServerRespError(_))));
}

#[test]
fn a_missing_key_through_the_service() {
    let engine = Shared::new();
    let resp = serve(&engine, Request::Get { key: text("missing") });
    assert!(matches!(value_read(resp), Ok(None)));
    let resp = serve(&engine, Request::Rm { key: text("missing") });
    match written(resp) {
        Err(KvsError::ServerRespError(t)) => assert_eq!(t, "the key `missing` is not exist"),
        _ => panic!("expected the server's error"),
    }
}

#[test]
fn four_clients_each_read_their_own_value() {
    let engine = Shared::new();
    let handles: Vec<Shared> = (0..4).map(|_| engine.clone()).collect();
    for (j, handle) in handles.iter().enumerate() {
        let resp = serve(handle, Request::SetKey { key: format!("key-{}", j), value: format!("val-{}", j) });
        assert!(matches!(written(resp), Ok(())));
    }
    for (j, handle) in handles.iter().enumerate().rev() {
        let resp = serve(handle, Request::Get { key: format!("key-{}", j) });
        assert!(matches!(value_read(resp), Ok(Some(v)) if v == format!("val-{}", j)));
    }
}

#[test]
fn the_marker_must_name_the_selected_engine() {
    assert!(engine_agrees(&None, "kvs"));
    assert!(engine_agrees(&Some(text("kvs")), "kvs"));
    assert!(!engine_agrees(&Some(text("sled")), "kvs"));
    assert!(!engine_agrees(&Some(text("kvs")), "sled"));
}
