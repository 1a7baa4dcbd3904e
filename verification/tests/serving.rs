use kvs::protocol::{read_get, read_remove, read_set, respond_change, respond_get, serve, Request, Response};
use kvs::{KvStore, KvsEngine, KvsError};

fn text(s: &str) -> String {
    s.to_string()
}

fn done(response: &Response) -> Option<Option<String>> {
    match response {
        Response::Done(found) => Some(found.clone()),
        Response::Failed(_) => None,
    }
}

fn failed(response: &Response) -> Option<String> {
    match response {
        Response::Done(_) => None,
        Response::Failed(text) => Some(text.clone()),
    }
}

#[test]
fn handle_operations() {
    let store = KvStore::open(Vec::new()).unwrap();
    store.set(text("k1"), text("v1")).unwrap();
    assert_eq!(store.get(text("k1")).unwrap(), Some(text("v1")));
    assert_eq!(store.get(text("k2")).unwrap(), None);
    store.remove(text("k1")).unwrap();
    assert_eq!(store.get(text("k1")).unwrap(), None);
    assert!(matches!(store.remove(text("k1")), Err(KvsError::KeyNotFoundError)));
}

#[test]
fn handles_share_one_store() {
    let first = KvStore::open(Vec::new()).unwrap();
    let second = first.clone();
    first.set(text("k"), text("from first")).unwrap();
    assert_eq!(second.get(text("k")).unwrap(), Some(text("from first")));
    second.set(text("k"), text("from second")).unwrap();
    assert_eq!(first.get(text("k")).unwrap(), Some(text("from second")));
    second.remove(text("k")).unwrap();
    assert_eq!(first.get(text("k")).unwrap(), None);
    let journal = second.take_journal();
    assert_eq!(journal.len(), 4);
    assert!(first.take_journal().is_empty());
}

#[test]
fn handle_refuses_a_broken_log() {
    let segments = vec![kvs::engines::Segment { gen: 1, data: b"{\"Set\":".to_vec() }];
    assert!(matches!(KvStore::open(segments), Err(KvsError::SerdeError)));
}

#[test]
fn serve_requests() {
    let store = KvStore::open(Vec::new()).unwrap();
    let response = serve(&store, Request::Get { key: text("k") });
    assert_eq!(done(&response), Some(None));
    let response = serve(&store, Request::SetValue { key: text("k"), value: text("v") });
    assert_eq!(done(&response), Some(None));
    let response = serve(&store, Request::Get { key: text("k") });
    assert_eq!(done(&response), Some(Some(text("v"))));
    let response = serve(&store, Request::Remove { key: text("k") });
    assert_eq!(done(&response), Some(None));
    let response = serve(&store, Request::Remove { key: text("k") });
    assert_eq!(failed(&response), Some(text("Key not found")));
    let response = serve(&store.clone(), Request::Get { key: text("k") });
    assert_eq!(done(&response), Some(None));
}

#[test]
fn responses_to_outcomes() {
    assert_eq!(done(&respond_change(Ok(()))), Some(None));
    assert_eq!(failed(&respond_change(Err(KvsError::KeyNotFoundError))), Some(text("Key not found")));
    assert_eq!(failed(&respond_change(Err(KvsError::IoError))), Some(text("IO error")));
    assert_eq!(done(&respond_get(Ok(Some(text("v"))))), Some(Some(text("v"))));
    assert_eq!(done(&respond_get(Ok(None))), Some(None));
    assert_eq!(failed(&respond_get(Err(KvsError::SerdeError))), Some(text("Serde json error")));
}

#[test]
fn client_reads_responses() {
    assert!(read_set(Response::Done(None)).is_ok());
    assert!(matches!(read_set(Response::Failed(text("IO error"))), Err(KvsError::StringError(t)) if t == "IO error"));
    assert!(matches!(read_set(Response::Failed(text("Key not found"))), Err(KvsError::StringError(t)) if t == "Key not found"));
    assert_eq!(read_get(Response::Done(Some(text("v")))).unwrap(), Some(text("v")));
    assert_eq!(read_get(Response::Done(None)).unwrap(), None);
    assert!(matches!(read_get(Response::Failed(text("boom"))), Err(KvsError::StringError(t)) if t == "boom"));
    assert!(read_remove(Response::Done(None)).is_ok());
    assert!(matches!(read_remove(Response::Failed(text("Key not found"))), Err(KvsError::KeyNotFoundError)));
    assert!(matches!(read_remove(Response::Failed(text("Key not found "))), Err(KvsError::StringError(t)) if t == "Key not found "));
    assert!(matches!(read_remove(Response::Failed(text(""))), Err(KvsError::StringError(t)) if t.is_empty()));
}

#[test]
fn remove_of_a_missing_key_reaches_the_client() {
    let store = KvStore::open(Vec::new()).unwrap();
    let response = serve(&store, Request::Remove { key: text("nobody") });
    assert!(matches!(read_remove(response), Err(KvsError::KeyNotFoundError)));
}

#[test]
fn execute_requests_on_a_store() {
    let mut store = kvs::engines::StoreWriter::open(Vec::new()).unwrap();
    let response = kvs::protocol::execute(&mut store, Request::Get { key: text("k") });
    assert_eq!(done(&response), Some(None));
    let response =
        kvs::protocol::execute(&mut store, Request::SetValue { key: text("k"), value: text("v") });
    assert_eq!(done(&response), Some(None));
    let response = kvs::protocol::execute(&mut store, Request::Get { key: text("k") });
    assert_eq!(done(&response), Some(Some(text("v"))));
    let response = kvs::protocol::execute(&mut store, Request::Remove { key: text("k") });
    assert_eq!(done(&response), Some(None));
    let response = kvs::protocol::execute(&mut store, Request::Remove { key: text("k") });
    assert_eq!(failed(&response), Some(text("Key not found")));
    assert_eq!(store.get(text("k")).unwrap(), None);
}
