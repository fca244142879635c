use focus_core::action_runner::ActionRunner;

#[test]
fn last_registration_wins_and_missing_is_none() {
    let mut runner: ActionRunner<u32> = ActionRunner::new();
    assert!(runner.get("open").is_none());
    runner.add("open", 1);
    runner.add("copy", 2);
    runner.add("open", 3);
    assert_eq!(runner.get("open"), Some(&3));
    assert_eq!(runner.get("copy"), Some(&2));
    assert_eq!(runner.get("missing"), None);
}
