use kvs::kv_map::KvMap;
use kvs::kv_store::{apply_command, deserialize_commands, serialize_command, serialize_commands};
use kvs::Command;

#[test]
fn kv_store_success() {
    let commands = vec![
        Command::Put {
            key: "key1".to_owned(),
            value: "value1".to_owned(),
        },
        Command::Rm {
            key: "key1".to_owned(),
        },
    ];

    let serialized = serialize_commands(&commands).unwrap();
    let expected = vec![
        "{\"type\":\"Set\",\"key\":\"key1\",\"value\":\"value1\"}",
        "{\"type\":\"Rm\",\"key\":\"key1\"}",
    ]
    .join("\n")
        + "\n";
    assert_eq!(serialized, expected);
}

#[test]
fn kv_store_fail() {
    let commands = vec![Command::Get {
        key: "key2".to_owned(),
    }];

    let result = serialize_commands(&commands);

    assert!(result.is_err());
    assert!(result
        .unwrap_err()
        .message()
        .contains("Get command should not be serialized"));
}

#[test]
fn store_success() {
    let commands = vec![
        Command::Put {
            key: "key1".to_owned(),
            value: "value1".to_owned(),
        },
        Command::Rm {
            key: "key1".to_owned(),
        },
    ];

    let serialized = serialize_commands(&commands).unwrap();
    let expected = vec![
        "{\"type\":\"Set\",\"key\":\"key1\",\"value\":\"value1\"}",
        "{\"type\":\"Rm\",\"key\":\"key1\"}",
    ]
    .join("\n")
        + "\n";
    assert_eq!(serialized, expected);
}

#[test]
fn store_fail() {
    let commands = vec![Command::Get {
        key: "key2".to_owned(),
    }];

    let result = serialize_commands(&commands);

    assert!(result.is_err());
    assert!(result
        .unwrap_err()
        .message()
        .contains("Get command should not be serialized"));
}

#[test]
fn serialize_command_success() {
    let command = Command::Put {
        key: "key1".to_owned(),
        value: "value1".to_owned(),
    };
    assert_eq!(
        serialize_command(&command).unwrap(),
        "{\"type\":\"Set\",\"key\":\"key1\",\"value\":\"value1\"}"
    );
    let command = Command::Rm {
        key: "key1".to_owned(),
    };
    assert_eq!(
        serialize_command(&command).unwrap(),
        "{\"type\":\"Rm\",\"key\":\"key1\"}"
    );
}

#[test]
fn serialize_command_escapes() {
    let command = Command::Put {
        key: "a\"b".to_owned(),
        value: "c\\d\ne\u{1}".to_owned(),
    };
    assert_eq!(
        serialize_command(&command).unwrap(),
        "{\"type\":\"Set\",\"key\":\"a\\\"b\",\"value\":\"c\\\\d\\ne\\u0001\"}"
    );
}

#[test]
fn deserialize_commands_success() {
    let deserialized = vec![
        "{\"type\":\"Set\",\"key\":\"key1\",\"value\":\"value1\"}",
        "{\"type\":\"Rm\",\"key\":\"key1\"}",
    ]
    .join("\n")
        + "\n";

    let expected = vec![
        Command::Put {
            key: "key1".to_owned(),
            value: "value1".to_owned(),
        },
        Command::Rm {
            key: "key1".to_owned(),
        },
    ];
    let commands = deserialize_commands(&deserialized).unwrap();

    assert_eq!(expected, commands);
}

#[test]
fn deserialize_commands_fail() {
    let deserialized = vec![
        "{\"type\":\"Set\",\"key\":\"key1\",\"value\":\"value1\"}",
        "{\"type\":\"Rm\",\"key\":\"key1\"}",
        "{\"type\":\"Get\",\"key\":\"key2\"}",
    ]
    .join("\n")
        + "\n";

    let result = deserialize_commands(&deserialized);

    assert!(result.is_err());
    assert!(result
        .unwrap_err()
        .message()
        .contains("Get command should not be deserialized"));
}

#[test]
fn deserialize_commands_malformed_line() {
    let text = "{\"type\":\"Set\",\"key\":\"key1\",\"value\":\"value1\"}\nnot a record\n".to_owned();
    let result = deserialize_commands(&text);
    assert!(result.is_err());
    assert!(result
        .unwrap_err()
        .message()
        .contains("Couldn't deserialize command"));
}

#[test]
fn deserialize_commands_blank_lines_and_whitespace() {
    let text = "\n  {\"type\":\"Set\",\"key\":\"key1\",\"value\":\"value1\"}  \n\n".to_owned();
    let commands = deserialize_commands(&text).unwrap();
    assert_eq!(
        commands,
        vec![Command::Put {
            key: "key1".to_owned(),
            value: "value1".to_owned(),
        }]
    );
}

#[test]
fn deserialize_commands_unicode_escape() {
    let text = "{\"type\":\"Set\",\"key\":\"k\",\"value\":\"\\u0041\\t\"}\n".to_owned();
    let commands = deserialize_commands(&text).unwrap();
    assert_eq!(
        commands,
        vec![Command::Put {
            key: "k".to_owned(),
            value: "A\t".to_owned(),
        }]
    );
}

#[test]
fn round_trip() {
    let commands = vec![
        Command::Put {
            key: "plain".to_owned(),
            value: "value".to_owned(),
        },
        Command::Put {
            key: "tricky \"key\"\n".to_owned(),
            value: "\\ \u{7} \u{1f} tab\t".to_owned(),
        },
        Command::Rm {
            key: "tricky \"key\"\n".to_owned(),
        },
        Command::Put {
            key: "unicode \u{00e9}\u{4e16}".to_owned(),
            value: "\u{1f600}".to_owned(),
        },
    ];
    let text = serialize_commands(&commands).unwrap();
    let back = deserialize_commands(&text).unwrap();
    assert_eq!(commands, back);
}

#[test]
fn apply_command_success() {
    let commands = vec![
        Command::Put {
            key: "key1".to_owned(),
            value: "value1".to_owned(),
        },
        Command::Put {
            key: "key2".to_owned(),
            value: "value2".to_owned(),
        },
        Command::Put {
            key: "key3".to_owned(),
            value: "value3".to_owned(),
        },
        Command::Rm {
            key: "key1".to_owned(),
        },
    ];
    let mut map = KvMap::new();
    for command in commands {
        apply_command(&command, &mut map).unwrap();
    }
    assert!(map.get(&"key1".to_owned()).is_none());
    assert_eq!(map.get(&"key2".to_owned()).unwrap().as_str(), "value2");
    assert_eq!(map.get(&"key3".to_owned()).unwrap().as_str(), "value3");
}

#[test]
fn apply_command_rejects_get() {
    let mut map = KvMap::new();
    let result = apply_command(
        &Command::Get {
            key: "key1".to_owned(),
        },
        &mut map,
    );
    assert!(result.is_err());
}

#[test]
fn convert_map_to_commands_success() {
    let mut store = KvMap::new();
    store.insert("key1".to_owned(), "value1".to_owned());
    store.insert("key2".to_owned(), "value2".to_owned());
    store.insert("key3".to_owned(), "value3".to_owned());
    let mut commands = kvs::kv_map::convert_map_to_commands(&store);
    assert_eq!(commands.len(), 3);
    commands.sort_by(|a, b| format!("{:?}", a).cmp(&format!("{:?}", b)));
    assert_eq!(
        commands[0],
        Command::Put {
            key: "key1".to_owned(),
            value: "value1".to_owned()
        }
    );
    assert_eq!(
        commands[1],
        Command::Put {
            key: "key2".to_owned(),
            value: "value2".to_owned()
        }
    );
    assert_eq!(
        commands[2],
        Command::Put {
            key: "key3".to_owned(),
            value: "value3".to_owned()
        }
    );
}
