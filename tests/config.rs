use focus_core::config::{split_dots, ConfigNode, ConfigHelper, AUTO_SAVE_INTERVAL_MS};

#[derive(Debug, Clone, PartialEq)]
enum Val {
    Str(String),
    Int(i64),
    Bool(bool),
    Table(Vec<(String, Val)>),
}

fn s(v: &str) -> Val {
    Val::Str(v.to_string())
}

/// A document as a value: tables become `Val::Table`.
fn to_val(n: &ConfigNode<&Val>) -> Val {
    match n {
        ConfigNode::Leaf(v) => (*v).clone(),
        ConfigNode::Table(es) => Val::Table(es.iter().map(|(k, c)| (k.clone(), to_val(c))).collect()),
    }
}

fn owned(n: &ConfigNode<&Val>) -> ConfigNode<Val> {
    match n {
        ConfigNode::Leaf(v) => ConfigNode::Leaf((*v).clone()),
        ConfigNode::Table(es) => ConfigNode::Table(es.iter().map(|(k, c)| (k.clone(), owned(c))).collect()),
    }
}

fn field<'a>(v: &'a Val, key: &str) -> Option<&'a Val> {
    match v {
        Val::Table(es) => es.iter().find(|(k, _)| k == key).map(|(_, v)| v),
        _ => None,
    }
}

/// The leaf, else the document of the children, else `default`.
fn get_value(store: &ConfigHelper<Val>, namespace: &str, default: Val) -> Val {
    if let Some(v) = store.get_raw_value(namespace) {
        return v.clone();
    }
    if let Some(t) = store.get_composite(namespace) {
        return to_val(&t);
    }
    default
}

#[test]
fn test_get_default_value() {
    let helper: ConfigHelper<Val> = ConfigHelper::new();
    let value = get_value(&helper, "nonexistent", s("default"));
    assert_eq!(value, s("default"));
}

#[test]
fn test_set_and_get_value() {
    let mut helper = ConfigHelper::new();
    helper.set_raw_value("test.key", s("hello"));
    let value = get_value(&helper, "test.key", s("default"));
    assert_eq!(value, s("hello"));
}

#[test]
fn test_save_and_load() {
    let mut helper = ConfigHelper::new();
    helper.set_raw_value("app.name", s("Focus"));
    helper.set_raw_value("app.version", s("1.0.0"));
    helper.set_raw_value("theme.dark", Val::Bool(true));
    helper.set_raw_value("app.data.user", s("Bob"));
    assert!(helper.begin_save());

    let doc = to_val(&helper.snapshot());
    let app = field(&doc, "app").unwrap();
    assert_eq!(field(app, "name"), Some(&s("Focus")));
    assert_eq!(field(field(app, "data").unwrap(), "user"), Some(&s("Bob")));
    assert_eq!(field(field(&doc, "theme").unwrap(), "dark"), Some(&Val::Bool(true)));
}

#[test]
fn test_custom_type() {
    let mut helper = ConfigHelper::new();
    let theme = Val::Table(vec![
        ("background".to_string(), s("#1a1a1a")),
        ("foreground".to_string(), s("#ffffff")),
        ("font_size".to_string(), Val::Int(14)),
    ]);
    helper.set_raw_value("theme.custom", theme.clone());

    let loaded = get_value(
        &helper,
        "theme.custom",
        Val::Table(vec![
            ("background".to_string(), s("#000000")),
            ("foreground".to_string(), s("#000000")),
            ("font_size".to_string(), Val::Int(12)),
        ]),
    );
    assert_eq!(field(&loaded, "background"), Some(&s("#1a1a1a")));
    assert_eq!(field(&loaded, "foreground"), Some(&s("#ffffff")));
    assert_eq!(field(&loaded, "font_size"), Some(&Val::Int(14)));
}

#[test]
fn test_get_parent_namespace() {
    let mut helper = ConfigHelper::new();
    helper.set_raw_value("test.key", s("value"));
    helper.set_raw_value("test.name", s("test"));
    helper.set_raw_value("test.count", Val::Int(42));

    let test_obj = get_value(&helper, "test", Val::Table(Vec::new()));
    assert!(matches!(test_obj, Val::Table(_)));
    assert_eq!(field(&test_obj, "key"), Some(&s("value")));
    assert_eq!(field(&test_obj, "name"), Some(&s("test")));
    assert_eq!(field(&test_obj, "count"), Some(&Val::Int(42)));
}

#[test]
fn test_get_parent_as_struct() {
    let mut helper = ConfigHelper::new();
    helper.set_raw_value("test.key", s("value"));
    helper.set_raw_value("test.name", s("test"));
    helper.set_raw_value("test.count", Val::Int(42));

    let default = Val::Table(vec![
        ("key".to_string(), s("default")),
        ("name".to_string(), s("default")),
        ("count".to_string(), Val::Int(0)),
    ]);
    let test_config = get_value(&helper, "test", default);
    assert_eq!(field(&test_config, "key"), Some(&s("value")));
    assert_eq!(field(&test_config, "name"), Some(&s("test")));
    assert_eq!(field(&test_config, "count"), Some(&Val::Int(42)));
}

#[test]
fn test_recursive_nested_struct() {
    let mut helper = ConfigHelper::new();
    helper.set_raw_value("app.name", s("Focus"));
    helper.set_raw_value("app.window.title", s("Main Window"));
    helper.set_raw_value("app.window.position.x", Val::Int(100));
    helper.set_raw_value("app.window.position.y", Val::Int(200));
    helper.set_raw_value("app.window.size.width", Val::Int(800));
    helper.set_raw_value("app.window.size.height", Val::Int(600));

    let config = get_value(&helper, "app", s("default"));
    assert_eq!(field(&config, "name"), Some(&s("Focus")));
    let window = field(&config, "window").unwrap();
    assert_eq!(field(window, "title"), Some(&s("Main Window")));
    let position = field(window, "position").unwrap();
    assert_eq!(field(position, "x"), Some(&Val::Int(100)));
    assert_eq!(field(position, "y"), Some(&Val::Int(200)));
    let size = field(window, "size").unwrap();
    assert_eq!(field(size, "width"), Some(&Val::Int(800)));
    assert_eq!(field(size, "height"), Some(&Val::Int(600)));

    let window = get_value(&helper, "app.window", s("default"));
    assert_eq!(field(&window, "title"), Some(&s("Main Window")));
    assert_eq!(field(field(&window, "position").unwrap(), "x"), Some(&Val::Int(100)));
    assert_eq!(field(field(&window, "size").unwrap(), "width"), Some(&Val::Int(800)));
}

#[test]
fn test_auto_save_by_timer() {
    let mut helper = ConfigHelper::new();
    assert_eq!(helper.auto_save_interval(), AUTO_SAVE_INTERVAL_MS);
    helper.set_auto_save_interval(50);
    assert_eq!(helper.auto_save_interval(), 50);
    assert!(!helper.begin_save());
    helper.set_raw_value("auto.key", s("saved"));
    assert!(helper.is_dirty());
    // The timer's tick finds the store dirty and writes the snapshot once.
    assert!(helper.begin_save());
    let doc = to_val(&helper.snapshot());
    assert_eq!(field(field(&doc, "auto").unwrap(), "key"), Some(&s("saved")));
    assert!(!helper.begin_save());
}

#[test]
fn failed_write_leaves_store_dirty() {
    let mut helper = ConfigHelper::new();
    helper.set_raw_value("k", Val::Int(1));
    assert!(helper.begin_save());
    helper.save_failed();
    assert!(helper.is_dirty());
    assert!(helper.begin_save());
}

#[test]
fn set_flush_reload_round_trip() {
    let mut helper = ConfigHelper::new();
    helper.set_raw_value("a.b.c", s("x"));
    assert!(helper.begin_save());
    let doc = owned(&helper.snapshot());

    let mut fresh = ConfigHelper::new();
    fresh.load(doc);
    assert!(!fresh.is_dirty());
    assert_eq!(get_value(&fresh, "a.b.c", s("default")), s("x"));
    let obj = get_value(&fresh, "a.b", Val::Table(Vec::new()));
    assert_eq!(field(&obj, "c"), Some(&s("x")));
}

#[test]
fn load_flattens_nested_tables() {
    let doc = ConfigNode::Table(vec![
        ("top".to_string(), ConfigNode::Leaf(Val::Int(1))),
        (
            "outer".to_string(),
            ConfigNode::Table(vec![(
                "inner".to_string(),
                ConfigNode::Table(vec![("leaf".to_string(), ConfigNode::Leaf(s("v")))]),
            )]),
        ),
    ]);
    let mut store = ConfigHelper::new();
    store.set_raw_value("top", Val::Int(0));
    store.load(doc);
    assert_eq!(store.get_raw_value("top"), Some(&Val::Int(1)));
    assert_eq!(store.get_raw_value("outer.inner.leaf"), Some(&s("v")));
    assert_eq!(store.get_raw_value("outer.inner"), None);
}

#[test]
fn bare_document_value_lands_under_empty_key() {
    let mut store = ConfigHelper::new();
    store.load(ConfigNode::Leaf(Val::Bool(false)));
    assert_eq!(store.get_raw_value(""), Some(&Val::Bool(false)));
}

#[test]
fn set_replaces_an_existing_leaf() {
    let mut store = ConfigHelper::new();
    store.set_raw_value("k", Val::Int(1));
    store.set_raw_value("k", Val::Int(2));
    assert_eq!(store.get_raw_value("k"), Some(&Val::Int(2)));
    assert!(store.get_composite("k").is_none());
}

#[test]
fn composite_needs_a_child() {
    let mut store = ConfigHelper::new();
    store.set_raw_value("ab", Val::Int(1));
    assert!(store.get_composite("a").is_none());
    store.set_raw_value("a.b", Val::Int(2));
    assert!(store.get_composite("a").is_some());
}

#[test]
fn split_dots_keeps_empty_parts() {
    assert_eq!(split_dots("a.b.c"), vec!["a", "b", "c"]);
    assert_eq!(split_dots("a..b"), vec!["a", "", "b"]);
    assert_eq!(split_dots(""), vec![""]);
    assert_eq!(split_dots(".x"), vec!["", "x"]);
}

#[test]
fn conflicting_keys_still_give_unique_names() {
    let mut store = ConfigHelper::new();
    store.set_raw_value("a.b", Val::Int(1));
    store.set_raw_value("a", Val::Int(2));
    store.set_raw_value("a.c", Val::Int(3));
    match store.snapshot() {
        ConfigNode::Table(es) => {
            let keys: Vec<&str> = es.iter().map(|(k, _)| k.as_str()).collect();
            assert_eq!(keys, vec!["a"]);
        }
        _ => panic!("snapshot is not a table"),
    }
}

#[test]
fn resolve_prefers_leaf_then_composite_then_default() {
    assert_eq!(focus_core::config::resolve_value(Some(1), Some(2), 3), 1);
    assert_eq!(focus_core::config::resolve_value(None, Some(2), 3), 2);
    assert_eq!(focus_core::config::resolve_value(None::<i32>, None, 3), 3);
}
