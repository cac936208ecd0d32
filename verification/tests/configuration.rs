use hookmgr::{
    config_from_hooks, load_config, load_config_if_present, parse_config, ConfigError, HookConfig,
    HookTable, HooksValue, CONFIG_FILENAME,
};

fn strings(items: &[&str]) -> Vec<String> {
    items.iter().map(|s| s.to_string()).collect()
}

#[test]
fn missing_config_is_none_not_an_error() {
    assert!(load_config_if_present(None).unwrap().is_none());
    assert!(load_config(None).is_err());
    assert!(matches!(load_config(None), Err(ConfigError::Missing)));
}

#[test]
fn parses_multiple_hook_types_in_order() {
    let config = load_config(Some(
        "[hooks]\npre-commit = [\"echo one\", \"echo two\"]\ncommit-msg = [\"echo three\"]\n",
    ))
    .unwrap();
    assert_eq!(
        config.hooks.get("pre-commit").unwrap(),
        &vec!["echo one".to_string(), "echo two".to_string()]
    );
    assert_eq!(
        config.hooks.get("commit-msg").unwrap(),
        &vec!["echo three".to_string()]
    );
}

#[test]
fn bad_toml_is_a_hard_error() {
    let text = "this is not valid toml {{{";
    assert!(load_config(Some(text)).is_err());
    assert!(load_config_if_present(Some(text)).is_err());
    match parse_config(text) {
        Err(ConfigError::Syntax(error)) => {
            assert_eq!(error, toml::from_str::<toml::Table>(text).unwrap_err());
        }
        _ => panic!("a text that is no TOML is a syntax error"),
    }
}

#[test]
fn config_file_name() {
    assert_eq!(CONFIG_FILENAME, ".hookmgr.toml");
}

#[test]
fn document_without_hooks_configures_none() {
    for text in ["", "# nothing\n", "other = 1\n[tool]\nx = [1, 2.5, 1979-05-27]\n"] {
        let config = parse_config(text).unwrap();
        assert!(config.hooks.is_empty());
        assert_eq!(config, HookConfig::default());
    }
    assert!(parse_config("[hooks]\n").unwrap().hooks.is_empty());
}

#[test]
fn other_keys_are_ignored() {
    let plain = parse_config("[hooks]\npre-push = [\"a\"]\n").unwrap();
    let more = parse_config("x = 1\n[hooks]\npre-push = [\"a\"]\n[hook]\ny = 'z'\n").unwrap();
    assert_eq!(plain, more);
}

#[test]
fn hooks_must_be_a_table() {
    for text in ["hooks = 1", "hooks = []", "hooks = 'x'", "hooks = 1979-05-27", "[[hooks]]\na = []\n"] {
        assert!(matches!(
            parse_config(text),
            Err(ConfigError::HooksNotTable)
        ));
    }
}

#[test]
fn commands_must_be_arrays_of_strings() {
    for value in ["1", "'x'", "true", "[1]", "['x', 2]", "[['x']]", "{ a = 'x' }"] {
        let text = format!("[hooks]\ngood = ['x']\npre-push = {value}\n");
        match parse_config(&text) {
            Err(ConfigError::NotCommandList { hook }) => assert_eq!(hook, "pre-push"),
            _ => panic!("{text}"),
        }
    }
    let empty = parse_config("[hooks]\npre-push = []\n").unwrap();
    assert_eq!(empty.hooks.get("pre-push").unwrap().len(), 0);
}

#[test]
fn names_and_commands_keep_their_characters() {
    let config = parse_config("hooks.\"a b\" = [\"é \\\"$1\\\"\", '''two\nlines''']").unwrap();
    assert_eq!(
        config.hooks.get("a b").unwrap(),
        &strings(&["é \"$1\"", "two\nlines"])
    );
    assert!(config.hooks.get("a").is_none());
}

#[test]
fn hooks_value_becomes_a_configuration() {
    assert!(config_from_hooks(HooksValue::Absent).unwrap().hooks.is_empty());
    assert!(matches!(
        config_from_hooks(HooksValue::NotTable),
        Err(ConfigError::HooksNotTable)
    ));
    let config = config_from_hooks(HooksValue::Table(vec![
        ("b".to_string(), Some(strings(&["one"]))),
        ("a".to_string(), Some(strings(&["two", "three"]))),
        ("b".to_string(), Some(strings(&["four"]))),
    ]))
    .unwrap();
    assert_eq!(config.hooks.keys(), strings(&["a", "b"]));
    assert_eq!(config.hooks.get("b").unwrap(), &strings(&["four"]));
    match config_from_hooks(HooksValue::Table(vec![
        ("b".to_string(), Some(strings(&["one"]))),
        ("c".to_string(), None),
        ("a".to_string(), None),
    ])) {
        Err(ConfigError::NotCommandList { hook }) => assert_eq!(hook, "c"),
        _ => panic!("an entry that is no list of commands is an error"),
    }
}

#[test]
fn table_keeps_names_in_order() {
    let names = [
        "pre-push", "pre-commit", "", "é", "z", "commit-msg", "pre", "Z", "\u{ffff}", "\u{10000}",
        "pre-push",
    ];
    let mut table = HookTable::new();
    let mut model: std::collections::BTreeMap<String, Vec<String>> =
        std::collections::BTreeMap::new();
    for (i, name) in names.iter().enumerate() {
        let commands = strings(&[&format!("echo {i}")]);
        table.insert(name.to_string(), commands.clone());
        model.insert(name.to_string(), commands);
    }
    assert_eq!(table.keys(), model.keys().cloned().collect::<Vec<String>>());
    for name in names {
        assert_eq!(table.get(name), model.get(name));
    }
    assert!(table.get("absent").is_none());
    assert!(!table.is_empty());
    assert!(HookTable::default().is_empty());
    assert_eq!(table.clone(), table);
}
