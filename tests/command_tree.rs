use focus_core::command_tree::{CommandContext, CommandDispatcher, CommandNode, StringArgument};

type Callback = fn(&CommandContext) -> u32;

fn done(_ctx: &CommandContext) -> u32 {
    1
}

fn dispatcher() -> CommandDispatcher<StringArgument, Callback> {
    CommandDispatcher::new("/")
}

#[test]
fn test_command_node() {
    let cmd = CommandNode::new("test").then(
        CommandNode::new("args").then(
            CommandNode::new("arg1")
                .argument(StringArgument)
                .execute(done as Callback),
        ),
    );
    let mut command_dispatcher = dispatcher();
    command_dispatcher.register(cmd);

    let found = command_dispatcher.run("/test        args 123".to_string());
    assert!(found.is_some());
    if let Some((_func, ctx)) = found {
        assert_eq!(ctx.get_parm("arg1"), Some(&Box::new(String::from("123"))));
        assert_eq!(ctx.get_parm("args"), None);
    }
}

#[test]
fn test_truncation() {
    let cmd = CommandNode::new("test").then(
        CommandNode::new("first")
            .argument(StringArgument)
            .set_truncate()
            .execute(done as Callback),
    );
    let mut command_dispatcher = dispatcher();
    command_dispatcher.register(cmd);

    let found = command_dispatcher.run("/test            first arg1 arg2".to_string());
    assert!(found.is_some());
    if let Some((_func, ctx)) = found {
        assert!(ctx.get_parm("arg1").is_none());
        assert!(ctx.get_parm("arg2").is_none());
        assert_eq!(ctx.get_parm("first"), Some(&Box::new("arg1 arg2".to_string())));
    }
}

#[test]
fn string_leaf_records_its_token() {
    let mut d = dispatcher();
    d.register(
        CommandNode::new("test").then(
            CommandNode::new("args").then(
                CommandNode::new("arg1").argument(StringArgument).execute(done as Callback),
            ),
        ),
    );
    let (f, ctx) = d.run("/test args arg1".to_string()).unwrap();
    assert_eq!(f(&ctx), 1);
    assert_eq!(ctx.get_parm("arg1").map(|b| b.as_str()), Some("arg1"));
}

#[test]
fn input_without_prefix_is_no_command() {
    let mut d = dispatcher();
    d.register(CommandNode::new("test").execute(done as Callback));
    assert!(d.run("test".to_string()).is_none());
    assert!(d.run(" /test".to_string()).is_none());
    assert!(d.run("".to_string()).is_none());
    assert!(d.run("/test".to_string()).is_some());
}

#[test]
fn longer_prefix_must_match_whole() {
    let mut d: CommandDispatcher<StringArgument, Callback> = CommandDispatcher::new(">>");
    d.register(CommandNode::new("go").execute(done as Callback));
    assert!(d.run(">go".to_string()).is_none());
    assert!(d.run(">>go".to_string()).is_some());
    assert!(d.run(">> go".to_string()).is_some());
}

#[test]
fn unmatched_token_aborts_the_walk() {
    let mut d = dispatcher();
    d.register(CommandNode::new("test").then(CommandNode::new("args").execute(done as Callback)));
    assert!(d.run("/test other".to_string()).is_none());
    assert!(d.run("/test args extra".to_string()).is_none());
}

#[test]
fn node_without_callback_gives_nothing() {
    let mut d = dispatcher();
    d.register(CommandNode::new("test").then(CommandNode::new("args").execute(done as Callback)));
    assert!(d.run("/test".to_string()).is_none());
    assert!(d.run("/test args".to_string()).is_some());
}

#[test]
fn literal_child_wins_over_parameter() {
    let mut d = dispatcher();
    d.register(
        CommandNode::new("set")
            .then(CommandNode::new("value").argument(StringArgument).execute(done as Callback))
            .then(CommandNode::new("all").execute(done as Callback)),
    );
    let (_, ctx) = d.run("/set all".to_string()).unwrap();
    assert!(ctx.get_parm("value").is_none());
    let (_, ctx) = d.run("/set other".to_string()).unwrap();
    assert_eq!(ctx.get_parm("value").map(|b| b.as_str()), Some("other"));
}

#[test]
fn registering_a_name_again_replaces_it() {
    let mut d = dispatcher();
    d.register(CommandNode::new("test").then(CommandNode::new("old").execute(done as Callback)));
    d.register(CommandNode::new("test").then(CommandNode::new("new").execute(done as Callback)));
    assert!(d.run("/test old".to_string()).is_none());
    assert!(d.run("/test new".to_string()).is_some());
}

#[test]
fn truncating_node_at_end_records_empty_value() {
    let mut d = dispatcher();
    d.register(
        CommandNode::new("say").then(
            CommandNode::new("text").argument(StringArgument).set_truncate().execute(done as Callback),
        ),
    );
    let (_, ctx) = d.run("/say hello".to_string()).unwrap();
    assert_eq!(ctx.get_parm("text").map(|b| b.as_str()), Some(""));
    let (_, ctx) = d.run("/say hello   big \t world".to_string()).unwrap();
    assert_eq!(ctx.get_parm("text").map(|b| b.as_str()), Some("big world"));
}

#[test]
fn context_parameters_last_write_wins() {
    let mut ctx = CommandContext::default();
    assert!(ctx.get_parm("a").is_none());
    ctx.add_parm("a", Box::new("1".to_string()));
    ctx.add_parm("b", Box::new("2".to_string()));
    ctx.add_parm("a", Box::new("3".to_string()));
    assert_eq!(ctx.get_parm("a").map(|b| b.as_str()), Some("3"));
    assert_eq!(ctx.get_parm("b").map(|b| b.as_str()), Some("2"));
}
