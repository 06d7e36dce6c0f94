use kvs::cli::check_engine_db_file;
use kvs::{Engine, NaiveThreadPool, RayonThreadPool, Server, SharedQueueThreadPool, ThreadPool};
use std::sync::Arc;
use std::sync::Mutex;

#[test]
fn engine_selection_guard() {
    assert!(check_engine_db_file(&Engine::Kvs, false, false).is_ok());
    assert!(check_engine_db_file(&Engine::Kvs, true, false).is_ok());
    assert!(check_engine_db_file(&Engine::Kvs, false, true).is_err());
    assert!(check_engine_db_file(&Engine::Sled, false, true).is_ok());
    assert!(check_engine_db_file(&Engine::Sled, true, false).is_err());
    assert!(check_engine_db_file(&Engine::Mem, true, false).is_err());
    assert!(check_engine_db_file(&Engine::Mem, false, true).is_err());
    assert!(check_engine_db_file(&Engine::Mem, false, false).is_ok());
}

#[test]
fn engine_labels_and_defaults() {
    assert_eq!(Engine::Kvs.as_str(), "kvs");
    assert_eq!(Engine::Sled.as_str(), "sled");
    assert_eq!(Engine::Mem.as_str(), "in-memory");
    assert_eq!(Engine::default(), Engine::Kvs);

    let server = Server::default();
    assert_eq!(server.addr, "127.0.0.1:4004");
    assert_eq!(server.engine, Engine::Kvs);
}

#[test]
fn http_replies() {
    let reply = kvs::http::get(&Some("value1".to_owned()));
    assert_eq!(reply.status, 200);
    assert_eq!(reply.body, "value1");

    let reply = kvs::http::get(&None);
    assert_eq!(reply.status, 404);
    assert_eq!(reply.body, "Key not found");

    let reply = kvs::http::set();
    assert_eq!(reply.status, 200);
    assert_eq!(reply.body, "");

    let reply = kvs::http::remove(&Some("old".to_owned()));
    assert_eq!(reply.status, 200);
    assert_eq!(reply.body, "");

    let reply = kvs::http::remove(&None);
    assert_eq!(reply.status, 404);
    assert_eq!(reply.body, "Key not found");

    let reply = kvs::http::engine_failure("disk on fire".to_owned());
    assert_eq!(reply.status, 500);
    assert_eq!(reply.body, "disk on fire");

    let reply = kvs::http::not_found();
    assert_eq!(reply.status, 404);
    assert_eq!(reply.body, "Not found");
}

#[test]
fn thread_pools_run_jobs() {
    let counter = Arc::new(Mutex::new(0u32));

    let pool = NaiveThreadPool::new(4).unwrap();
    let c = Arc::clone(&counter);
    pool.spawn(move || {
        *c.lock().unwrap() += 1;
    });

    let pool = SharedQueueThreadPool::new(4).unwrap();
    let c = Arc::clone(&counter);
    pool.spawn(move || {
        *c.lock().unwrap() += 1;
    });

    let pool = RayonThreadPool::new(4).unwrap();
    let c = Arc::clone(&counter);
    pool.spawn(move || {
        *c.lock().unwrap() += 1;
    });

    assert_eq!(*counter.lock().unwrap(), 3);
}
