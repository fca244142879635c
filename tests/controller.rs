use focus_core::command_tree::{CommandContext, CommandNode, StringArgument};
use focus_core::config::ConfigHelper;
use focus_core::controller::{CommandRunner, Core, Error};
use focus_core::extension::{action, ExtensionResult, MetaData, PluginResult, Results};
use focus_core::shortcut::{DispatchStage, ScoredItem, ShortcutContext, ShortcutRegistration, ShortcutResult, ShortcutRunner};

type Callback = fn(&CommandContext) -> PluginResult;
type Handler = fn(&ShortcutContext) -> Vec<ScoredItem<PluginResult>>;
type TestCore = Core<StringArgument, Callback, Handler, &'static str, i64>;

struct Runner;

impl CommandRunner<Callback> for Runner {
    fn run_command(&mut self, callback: &Callback, ctx: CommandContext) -> PluginResult {
        callback(&ctx)
    }
}

impl ShortcutRunner<Handler, PluginResult> for Runner {
    fn run_exact(&mut self, handler: &Handler, ctx: &ShortcutContext) -> Vec<PluginResult> {
        handler(ctx).into_iter().map(|i| i.value).collect()
    }

    fn run_any(&mut self, handlers: Vec<&Handler>, ctx: &ShortcutContext) -> Vec<Vec<ScoredItem<PluginResult>>> {
        handlers.into_iter().map(|h| h(ctx)).collect()
    }

    fn run_fixed(&mut self, handlers: Vec<&Handler>, ctx: &ShortcutContext) -> Vec<Vec<PluginResult>> {
        handlers.into_iter().map(|h| h(ctx).into_iter().map(|i| i.value).collect()).collect()
    }
}

fn item(title: &str) -> ExtensionResult {
    ExtensionResult {
        icon: "i".to_string(),
        title: title.to_string(),
        description: String::new(),
        actions: vec![action {
            icon: "run".to_string(),
            tooltip: String::new(),
            value: title.to_string(),
            id: "open".to_string(),
        }],
    }
}

fn echo(ctx: &CommandContext) -> PluginResult {
    let text = ctx.get_parm("echo").map(|b| b.to_string()).unwrap_or_default();
    PluginResult::ExtensionResult(item(&text))
}

fn failing(_ctx: &CommandContext) -> PluginResult {
    PluginResult::PluginError("malformed expression".to_string())
}

fn search(ctx: &ShortcutContext) -> Vec<ScoredItem<PluginResult>> {
    vec![
        ScoredItem { score: 50, value: PluginResult::ExtensionResult(item(&ctx.trimmed_input)) },
        ScoredItem { score: 0, value: PluginResult::ExtensionResult(item("hidden")) },
    ]
}

fn sample_core() -> TestCore {
    let mut c: TestCore = Core::new(ConfigHelper::new(), "/");
    c.register_command(CommandNode::new("echo").set_truncate().execute(echo as Callback));
    c.register_command(CommandNode::new("calc").execute(failing as Callback));
    c.register_shortcut(ShortcutRegistration::any(0, search as Handler)).unwrap();
    c.add_action("open", "opener");
    c
}

#[test]
fn command_goes_first() {
    let c = sample_core();
    let r = c.handle_query("/echo hello   world", &mut Runner).unwrap();
    assert_eq!(r.total_count, 1);
    assert_eq!(r.items[0].title, "hello world");
}

#[test]
fn plugin_error_reaches_the_caller() {
    let c = sample_core();
    match c.handle_query("/calc", &mut Runner) {
        Err(Error::Plugin(m)) => assert_eq!(m, "malformed expression"),
        Ok(_) => panic!("plugin error was swallowed"),
    }
}

#[test]
fn unmatched_command_falls_back_to_scored_search() {
    let c = sample_core();
    let r = c.handle_query("/nothing", &mut Runner).unwrap();
    assert_eq!(r.total_count, 1);
    assert_eq!(r.items[0].title, "/nothing");
    let r = c.handle_query("notes", &mut Runner).unwrap();
    assert_eq!(r.items.len(), 1);
    assert_eq!(r.items[0].title, "notes");
}

#[test]
fn actions_are_looked_up_by_id() {
    let c = sample_core();
    assert_eq!(c.handle_action("open"), Some(&"opener"));
    assert_eq!(c.handle_action("missing"), None);
}

#[test]
fn finish_query_maps_each_kind() {
    let r = TestCore::finish_query(PluginResult::Null).unwrap();
    assert_eq!(r.total_count, 0);
    assert!(r.items.is_empty());
    let r = TestCore::finish_query(PluginResult::Results(Results { total_count: 2, items: vec![item("a"), item("b")] })).unwrap();
    assert_eq!(r.total_count, 2);
    assert_eq!(r.items[1].title, "b");
    assert!(matches!(TestCore::finish_query(PluginResult::PluginError("e".to_string())), Err(Error::Plugin(_))));
}

#[test]
fn shortcut_results_merge_positive_scores_only() {
    let shortcut = ShortcutResult {
        stage: DispatchStage::Any,
        items: vec![
            ScoredItem { score: 9, value: PluginResult::Results(Results { total_count: 5, items: vec![item("x"), item("y")] }) },
            ScoredItem { score: 0, value: PluginResult::ExtensionResult(item("zero")) },
            ScoredItem { score: 3, value: PluginResult::ExtensionResult(item("z")) },
            ScoredItem { score: 3, value: PluginResult::PluginError("ignored".to_string()) },
            ScoredItem { score: 2, value: PluginResult::Null },
        ],
    };
    match PluginResult::from_shortcut(shortcut) {
        PluginResult::Results(r) => {
            assert_eq!(r.total_count, 6);
            let titles: Vec<&str> = r.items.iter().map(|i| i.title.as_str()).collect();
            assert_eq!(titles, vec!["x", "y", "z"]);
        }
        other => panic!("unexpected {:?}", other),
    }
}

#[test]
fn plugin_settings_are_scoped_by_id() {
    let mut c = sample_core();
    let meta = MetaData::default_builder("calc");
    assert_eq!(TestCore::config_key(&meta, "precision"), "calc.precision");
    assert_eq!(c.get_config(&meta, "precision"), None);
    c.get_config_value(&meta, "precision", 4);
    assert_eq!(c.get_config(&meta, "precision"), Some(&4));
    assert_eq!(c.get_config_store().get_raw_value("calc.precision"), Some(&4));
    assert!(c.begin_config_save());
    assert!(!c.begin_config_save());
    c.config_save_failed();
    assert!(c.get_config_store().is_dirty());
}

#[test]
fn route_query_reports_the_matched_command() {
    let c = sample_core();
    let (f, ctx) = c.route_query("/echo a b").unwrap();
    assert!(matches!(f(&ctx), PluginResult::ExtensionResult(_)));
    assert!(c.route_query("echo").is_none());
    assert!(c.route_query("/missing").is_none());
}

#[test]
fn plugin_settings_below_a_key_form_a_document() {
    let mut c = sample_core();
    let meta = MetaData::default_builder("theme");
    assert!(c.get_config_composite(&meta, "colors").is_none());
    c.get_config_value(&meta, "colors.bg", 1);
    c.get_config_value(&meta, "colors.fg", 2);
    match c.get_config_composite(&meta, "colors") {
        Some(focus_core::config::ConfigNode::Table(es)) => {
            let keys: Vec<&str> = es.iter().map(|(k, _)| k.as_str()).collect();
            assert_eq!(keys, vec!["bg", "fg"]);
        }
        _ => panic!("no document below the key"),
    }
}

#[test]
fn defaults_are_written_when_missing_or_stale() {
    assert!(TestCore::needs_defaults(false, "0.1.0", "0.1.0"));
    assert!(TestCore::needs_defaults(true, "0.0.9", "0.1.0"));
    assert!(!TestCore::needs_defaults(true, "0.1.0", "0.1.0"));
}
