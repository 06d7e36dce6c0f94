use kvs::kv_store::FileOp;
use kvs::Error;
use kvs::{Command, KvStoreV2, KvsEngine, MemStore};

#[test]
fn open_empty_text() {
    let store = KvStoreV2::open(&String::new()).unwrap();
    assert_eq!(store.log_count(), 0);
    assert_eq!(store.map_len(), 0);
}

#[test]
fn success_file_existing() {
    let commands = vec![
        Command::Put {
            key: "key1".to_owned(),
            value: "value1".to_owned(),
        },
        Command::Put {
            key: "key2".to_owned(),
            value: "value2".to_owned(),
        },
        Command::Put {
            key: "key3".to_owned(),
            value: "value3".to_owned(),
        },
    ];
    let commands_str = kvs::kv_store::serialize_commands(&commands).unwrap();

    let store = KvStoreV2::open(&commands_str).unwrap();

    assert_eq!(store.map_len(), commands.len());
    assert_eq!(store.get("key1".to_owned()).unwrap(), Some("value1".to_owned()));
    assert_eq!(store.get("key2".to_owned()).unwrap(), Some("value2".to_owned()));
    assert_eq!(store.get("key3".to_owned()).unwrap(), Some("value3".to_owned()));
}

#[test]
fn open_rejects_corrupt_log() {
    let text = "{\"type\":\"Set\",\"key\":\"key1\"".to_owned();
    assert!(KvStoreV2::open(&text).is_err());
}

#[test]
fn open_tolerates_stale_rm() {
    // replaying an `Rm` for an already-absent key must not fail
    let text = "{\"type\":\"Rm\",\"key\":\"ghostly\"}\n".to_owned();
    let store = KvStoreV2::open(&text).unwrap();
    assert_eq!(store.get("ghostly".to_owned()).unwrap(), None);
    assert_eq!(store.log_count(), 1);
}

#[test]
fn replay_equivalence() {
    let mut live = KvStoreV2::new();
    live.set("a".to_owned(), "1".to_owned()).unwrap();
    live.set("b".to_owned(), "2".to_owned()).unwrap();
    live.set("a".to_owned(), "3".to_owned()).unwrap();
    live.remove("b".to_owned()).unwrap();
    live.set("c".to_owned(), "4".to_owned()).unwrap();

    let text = kvs::kv_store::serialize_commands(live.log()).unwrap();
    let reopened = KvStoreV2::open(&text).unwrap();

    assert_eq!(reopened.map_len(), live.map_len());
    for key in ["a", "b", "c", "missing"] {
        assert_eq!(
            reopened.get(key.to_owned()).unwrap(),
            live.get(key.to_owned()).unwrap()
        );
    }
    assert_eq!(reopened.log_count(), live.log_count());
}

#[test]
fn compaction_success() {
    let mut store = KvStoreV2::new();
    store.set("key1".to_owned(), "value1".to_owned()).unwrap();
    store.set("key1".to_owned(), "value2".to_owned()).unwrap();
    store.set("key1".to_owned(), "value3".to_owned()).unwrap();
    store.set("key2".to_owned(), "value1".to_owned()).unwrap();
    store.set("key2".to_owned(), "value2".to_owned()).unwrap();

    store.compact().unwrap();

    assert_eq!(
        store.get("key1".to_owned()).unwrap(),
        Some("value3".to_owned()),
    );
    assert_eq!(
        store.get("key2".to_owned()).unwrap(),
        Some("value2".to_owned()),
    );
    assert_eq!(store.map_len(), 2);
    assert_eq!(store.log_count(), 2);
}

#[test]
fn compaction_idempotent_on_content() {
    let mut store = KvStoreV2::new();
    store.set("a".to_owned(), "1".to_owned()).unwrap();
    store.set("b".to_owned(), "2".to_owned()).unwrap();
    store.set("a".to_owned(), "3".to_owned()).unwrap();

    store.compact().unwrap();
    assert_eq!(store.log_count(), store.map_len());
    let first = store.log().clone();

    store.compact().unwrap();
    let second = store.log().clone();

    assert_eq!(first, second);
    assert_eq!(store.log_count(), store.map_len());
    assert_eq!(store.get("a".to_owned()).unwrap(), Some("3".to_owned()));
    assert_eq!(store.get("b".to_owned()).unwrap(), Some("2".to_owned()));
}

#[test]
fn not_found_semantics() {
    let mut store = KvStoreV2::new();
    store.set("present".to_owned(), "x".to_owned()).unwrap();
    let count_before = store.log_count();

    assert_eq!(store.get("missing".to_owned()).unwrap(), None);
    assert_eq!(store.remove("missing".to_owned()).unwrap(), None);
    // a not-found remove appends nothing to the log
    assert_eq!(store.log_count(), count_before);
    assert_eq!(store.log().len(), count_before);

    let mut mem = MemStore::new();
    assert_eq!(mem.get("missing".to_owned()).unwrap(), None);
    assert_eq!(mem.remove("missing".to_owned()).unwrap(), None);
}

#[test]
fn compaction_trigger_scenario() {
    let mut store = KvStoreV2::new();

    store.set("a".to_owned(), "1".to_owned()).unwrap();
    assert_eq!(store.log_count(), 1);

    // the second record reaches twice the single live key, so the log is
    // compacted back to one record
    store.set("a".to_owned(), "2".to_owned()).unwrap();
    assert_eq!(store.log_count(), 1);

    store.set("b".to_owned(), "x".to_owned()).unwrap();
    assert_eq!(store.log_count(), 2);

    store.remove("a".to_owned()).unwrap();

    assert_eq!(store.get("a".to_owned()).unwrap(), None);
    assert_eq!(store.get("b".to_owned()).unwrap(), Some("x".to_owned()));
    assert_eq!(store.log_count(), 1);
    assert_eq!(store.map_len(), 1);
    assert_eq!(
        store.log().as_slice(),
        &[Command::Put {
            key: "b".to_owned(),
            value: "x".to_owned(),
        }]
    );
}

#[test]
fn journal_mirrors_the_log() {
    let mut store = KvStoreV2::new();
    store.set("a".to_owned(), "1".to_owned()).unwrap();
    let ops = store.take_journal();
    assert_eq!(
        ops,
        vec![FileOp::Append {
            line: "{\"type\":\"Set\",\"key\":\"a\",\"value\":\"1\"}".to_owned(),
        }]
    );

    store.set("a".to_owned(), "2".to_owned()).unwrap();
    let ops = store.take_journal();
    assert_eq!(
        ops,
        vec![
            FileOp::Append {
                line: "{\"type\":\"Set\",\"key\":\"a\",\"value\":\"2\"}".to_owned(),
            },
            FileOp::Replace {
                content: "{\"type\":\"Set\",\"key\":\"a\",\"value\":\"2\"}\n".to_owned(),
            },
        ]
    );
    assert!(store.take_journal().is_empty());
}

#[test]
fn kv_map_basics() {
    let mut map = kvs::KvMap::new();
    assert_eq!(map.len(), 0);
    map.insert("k".to_owned(), "v1".to_owned());
    map.insert("k".to_owned(), "v2".to_owned());
    assert_eq!(map.len(), 1);
    assert_eq!(map.get(&"k".to_owned()).unwrap().as_str(), "v2");
    assert_eq!(map.remove(&"k".to_owned()), Some("v2".to_owned()));
    assert_eq!(map.remove(&"k".to_owned()), None);
    assert_eq!(map.len(), 0);
}

#[test]
fn error_messages() {
    assert_eq!(
        Error::KeyNotFound { key: "k".to_owned() }.message(),
        "Key not found: k"
    );
    assert!(Error::FileInit { path: "p".to_owned() }.message().contains("p"));
    assert!(Error::FileOpen { path: "p".to_owned() }.message().contains("p"));
    assert!(Error::FileRead { path: "p".to_owned() }.message().contains("p"));
    assert!(Error::FileWrite { path: "p".to_owned() }.message().contains("p"));
    assert!(Error::CommandWriteLine { line: "l".to_owned() }.message().contains("l"));
    assert!(Error::CommandSerialize { command: "c".to_owned() }.message().contains("c"));
    assert!(Error::CommandDeserialize { line: "l".to_owned() }.message().contains("l"));
    assert_eq!(
        Error::Whatever { message: "boom".to_owned() }.message(),
        "boom"
    );
}

#[test]
fn windows_line_endings_replay() {
    let text = "{\"type\":\"Set\",\"key\":\"a\",\"value\":\"1\"}\r\n{\"type\":\"Set\",\"key\":\"b\",\"value\":\"2\"}\r\n"
        .to_owned();
    let store = KvStoreV2::open(&text).unwrap();
    assert_eq!(store.get("a".to_owned()).unwrap(), Some("1".to_owned()));
    assert_eq!(store.get("b".to_owned()).unwrap(), Some("2".to_owned()));
}

#[test]
fn many_operations_replay() {
    let mut store = KvStoreV2::new();
    for i in 0..50u32 {
        let key = format!("key{}", i % 7);
        let value = format!("value{}", i);
        store.set(key, value).unwrap();
        if i % 11 == 0 {
            let victim = format!("key{}", (i + 3) % 7);
            let _ = store.remove(victim).unwrap();
        }
    }
    // the log stays bounded: compaction keeps it under twice the live keys
    assert!(store.log_count() <= 2 * store.map_len());

    let text = kvs::kv_store::serialize_commands(store.log()).unwrap();
    let reopened = KvStoreV2::open(&text).unwrap();
    assert_eq!(reopened.map_len(), store.map_len());
    for i in 0..7u32 {
        let key = format!("key{}", i);
        assert_eq!(
            reopened.get(key.clone()).unwrap(),
            store.get(key).unwrap()
        );
    }
}
