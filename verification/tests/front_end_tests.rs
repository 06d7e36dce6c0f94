use kvs::protocol::{parse, respond, tokenize};
use kvs::{evaluate_command, Command, CommandResponse, KvStoreV2, KvsEngine, MemStore, SledStore};

#[test]
fn server_tcp_success() {
    let test_table = vec![
        (
            "word1 word2 word3",
            vec![
                "word1".to_string(),
                "word2".to_string(),
                "word3".to_string(),
            ],
        ),
        (
            "  word1   word2  word3    ",
            vec![
                "word1".to_string(),
                "word2".to_string(),
                "word3".to_string(),
            ],
        ),
        (
            "word1\nword2 word3",
            vec!["word1\nword2".to_string(), "word3".to_string()],
        ),
    ];

    for (input, expected) in test_table {
        let got = tokenize(&input.to_string());
        assert_eq!(got, expected);
    }
}

#[test]
fn parse_success() {
    let test_table = vec![
        (
            "GET key1".to_string(),
            Command::Get {
                key: "key1".to_string(),
            },
        ),
        (
            "SET key1 value1".to_string(),
            Command::Put {
                key: "key1".to_string(),
                value: "value1".to_string(),
            },
        ),
        (
            "RM key1".to_string(),
            Command::Rm {
                key: "key1".to_string(),
            },
        ),
        (
            "   GET   spaced-key-command    ".to_string(),
            Command::Get {
                key: "spaced-key-command".to_string(),
            },
        ),
    ];

    for (input, expected) in test_table {
        let words = tokenize(&input);
        let got = parse(words).unwrap();
        assert_eq!(got, expected);
    }
}

#[test]
fn parse_case_insensitive_and_malformed() {
    let got = parse(tokenize(&"get key1".to_string())).unwrap();
    assert_eq!(
        got,
        Command::Get {
            key: "key1".to_string(),
        }
    );
    assert!(parse(tokenize(&"PUSH key1".to_string())).is_err());
    assert!(parse(tokenize(&"GET".to_string())).is_err());
    assert!(parse(tokenize(&"GET a b c".to_string())).is_err());
    assert!(parse(tokenize(&"   ".to_string())).is_err());
}

#[test]
fn respond_success() {
    let command_response = CommandResponse::Get {
        value: Some("value1".to_string()),
    };

    let got = respond(&command_response).unwrap();

    assert_eq!(got, "OK value1");
}

#[test]
fn respond_framing() {
    assert_eq!(
        respond(&CommandResponse::Get { value: None }).unwrap(),
        "ERR Key not found"
    );
    assert_eq!(respond(&CommandResponse::Put {}), None);
    assert_eq!(
        respond(&CommandResponse::Rm {
            value: Some("old".to_string())
        }),
        None
    );
    assert_eq!(
        respond(&CommandResponse::Rm { value: None }).unwrap(),
        "ERR Key not found"
    );
}

#[test]
fn tcp_scenario() {
    let mut store = KvStoreV2::new();

    let command = parse(tokenize(&"GET missing".to_string())).unwrap();
    let response = evaluate_command(&command, &mut store).unwrap();
    assert_eq!(respond(&response).unwrap(), "ERR Key not found");

    let command = parse(tokenize(&"SET a 1".to_string())).unwrap();
    let response = evaluate_command(&command, &mut store).unwrap();
    assert_eq!(respond(&response), None);

    let command = parse(tokenize(&"GET a".to_string())).unwrap();
    let response = evaluate_command(&command, &mut store).unwrap();
    assert_eq!(respond(&response).unwrap(), "OK 1");
}

#[test]
fn evaluate_command_responses() {
    let mut store = MemStore::new();
    let response = evaluate_command(
        &Command::Put {
            key: "k".to_owned(),
            value: "v".to_owned(),
        },
        &mut store,
    )
    .unwrap();
    assert_eq!(response, CommandResponse::Put {});

    let response = evaluate_command(
        &Command::Get { key: "k".to_owned() },
        &mut store,
    )
    .unwrap();
    assert_eq!(
        response,
        CommandResponse::Get {
            value: Some("v".to_owned())
        }
    );

    let response = evaluate_command(
        &Command::Rm { key: "k".to_owned() },
        &mut store,
    )
    .unwrap();
    assert_eq!(
        response,
        CommandResponse::Rm {
            value: Some("v".to_owned())
        }
    );

    let response = evaluate_command(
        &Command::Rm { key: "k".to_owned() },
        &mut store,
    )
    .unwrap();
    assert_eq!(response, CommandResponse::Rm { value: None });
}

#[test]
fn engine_equivalence() {
    let dir = tempfile::tempdir().expect("unable to create temporary working directory");
    let sled_dir = dir.path().to_str().unwrap().to_owned();

    let mut kv = KvStoreV2::new();
    let mut mem = MemStore::new();
    let mut sled_store = SledStore::open(&sled_dir).expect("unable to open sled store");

    let ops = vec![
        Command::Put {
            key: "a".to_owned(),
            value: "1".to_owned(),
        },
        Command::Put {
            key: "a".to_owned(),
            value: "2".to_owned(),
        },
        Command::Put {
            key: "b".to_owned(),
            value: "x".to_owned(),
        },
        Command::Rm { key: "a".to_owned() },
        Command::Get { key: "a".to_owned() },
        Command::Get { key: "b".to_owned() },
    ];

    for op in &ops {
        let r_kv = evaluate_command(op, &mut kv).unwrap();
        let r_mem = evaluate_command(op, &mut mem).unwrap();
        let r_sled = evaluate_command(op, &mut sled_store).unwrap();
        assert_eq!(r_kv, r_mem);
        assert_eq!(r_kv, r_sled);
    }

    for key in ["a", "b", "missing"] {
        let v_kv = kv.get(key.to_owned()).unwrap();
        let v_mem = KvsEngine::get(&mem, key.to_owned()).unwrap();
        let v_sled = KvsEngine::get(&sled_store, key.to_owned()).unwrap();
        assert_eq!(v_kv, v_mem);
        assert_eq!(v_kv, v_sled);
    }
}

#[test]
fn sled_passthrough() {
    let dir = tempfile::tempdir().expect("unable to create temporary working directory");
    let sled_dir = dir.path().to_str().unwrap().to_owned();
    let mut store = SledStore::open(&sled_dir).expect("unable to open sled store");
    KvsEngine::set(&mut store, "key1".to_owned(), "value1".to_owned()).unwrap();
    assert_eq!(
        KvsEngine::get(&store, "key1".to_owned()).unwrap(),
        Some("value1".to_owned())
    );
    assert_eq!(
        KvsEngine::remove(&mut store, "key1".to_owned()).unwrap(),
        Some("value1".to_owned())
    );
    assert_eq!(KvsEngine::get(&store, "key1".to_owned()).unwrap(), None);
    assert_eq!(store.name(), "sled");

    let unbound = SledStore::new();
    assert!(KvsEngine::get(&unbound, "key1".to_owned()).is_err());
}

#[test]
fn engine_names() {
    assert_eq!(KvStoreV2::new().name(), "kvs");
    assert_eq!(MemStore::new().name(), "in-memory");
}

#[test]
fn error_line_framing() {
    let err = parse(tokenize(&"PUSH key1".to_string())).unwrap_err();
    assert_eq!(kvs::protocol::error_line(&err.message()), "ERR Invalid command");
}
