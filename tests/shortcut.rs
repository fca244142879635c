use std::sync::atomic::{AtomicUsize, Ordering};
use std::sync::Arc;

use focus_core::shortcut::{
    DispatchStage, RankedItem, ScoredItem, ShortcutContext, ShortcutError, ShortcutResult,
    ShortcutRunner, ShortcutsDispatcher, TierPlan,
};

type ListFn = Box<dyn Fn(&ShortcutContext) -> Vec<String>>;
type ScoredFn = Box<dyn Fn(&ShortcutContext) -> Vec<ScoredItem<String>>>;

enum Handler {
    List(ListFn),
    Scored(ScoredFn),
}

/// Runs each tier's handlers one after another.
struct SeqRunner;

impl ShortcutRunner<Handler, String> for SeqRunner {
    fn run_exact(&mut self, handler: &Handler, ctx: &ShortcutContext) -> Vec<String> {
        match handler {
            Handler::List(f) => f(ctx),
            Handler::Scored(f) => f(ctx).into_iter().map(|i| i.value).collect(),
        }
    }

    fn run_any(&mut self, handlers: Vec<&Handler>, ctx: &ShortcutContext) -> Vec<Vec<ScoredItem<String>>> {
        handlers
            .into_iter()
            .map(|h| match h {
                Handler::Scored(f) => f(ctx),
                Handler::List(_) => Vec::new(),
            })
            .collect()
    }

    fn run_fixed(&mut self, handlers: Vec<&Handler>, ctx: &ShortcutContext) -> Vec<Vec<String>> {
        handlers
            .into_iter()
            .map(|h| match h {
                Handler::List(f) => f(ctx),
                Handler::Scored(_) => Vec::new(),
            })
            .collect()
    }
}

fn list(f: impl Fn(&ShortcutContext) -> Vec<String> + 'static) -> Handler {
    Handler::List(Box::new(f))
}

fn scored(f: impl Fn(&ShortcutContext) -> Vec<ScoredItem<String>> + 'static) -> Handler {
    Handler::Scored(Box::new(f))
}

fn run(d: &ShortcutsDispatcher<Handler>, input: &str, top_k: Option<usize>) -> ShortcutResult<String> {
    d.run(input, &mut SeqRunner, top_k)
}

fn values(r: &ShortcutResult<String>) -> Vec<&str> {
    r.items.iter().map(|i| i.value.as_str()).collect()
}

#[test]
fn exact_short_circuit_any_and_fixed() {
    let any_called = Arc::new(AtomicUsize::new(0));
    let fixed_called = Arc::new(AtomicUsize::new(0));

    let mut dispatcher = ShortcutsDispatcher::<Handler>::new();
    dispatcher.register_exact('>', list(|_ctx| vec!["exact".to_string()])).unwrap();

    let any_called_clone = any_called.clone();
    dispatcher.register_any(
        0,
        scored(move |_ctx| {
            any_called_clone.fetch_add(1, Ordering::SeqCst);
            vec![ScoredItem { score: 10, value: "any".to_string() }]
        }),
    );

    let fixed_called_clone = fixed_called.clone();
    dispatcher.register_fixed(
        1,
        0,
        list(move |_ctx| {
            fixed_called_clone.fetch_add(1, Ordering::SeqCst);
            vec!["fixed".to_string()]
        }),
    );

    let result = run(&dispatcher, ">query", Some(10));
    assert_eq!(result.stage, DispatchStage::Exact);
    assert_eq!(result.items.len(), 1);
    assert_eq!(result.items[0].value, "exact");
    assert_eq!(any_called.load(Ordering::SeqCst), 0);
    assert_eq!(fixed_called.load(Ordering::SeqCst), 0);
}

#[test]
fn any_runs_all_handlers_and_sorts() {
    let called = Arc::new(AtomicUsize::new(0));
    let mut dispatcher = ShortcutsDispatcher::<Handler>::new();

    let called_1 = called.clone();
    dispatcher.register_any(
        10,
        scored(move |_ctx| {
            called_1.fetch_add(1, Ordering::SeqCst);
            vec![ScoredItem { score: 20, value: "mid".to_string() }]
        }),
    );

    let called_2 = called.clone();
    dispatcher.register_any(
        10,
        scored(move |_ctx| {
            called_2.fetch_add(1, Ordering::SeqCst);
            vec![ScoredItem { score: 100, value: "top".to_string() }]
        }),
    );

    let result = run(&dispatcher, "not_exact", Some(10));
    assert_eq!(result.stage, DispatchStage::Any);
    assert_eq!(result.items.len(), 2);
    assert_eq!(result.items[0].value, "top");
    assert_eq!(result.items[1].value, "mid");
    assert_eq!(called.load(Ordering::SeqCst), 2);
}

#[test]
fn fixed_fallback_when_any_is_empty() {
    let mut dispatcher = ShortcutsDispatcher::<Handler>::new();
    dispatcher.register_any(0, scored(|_ctx| Vec::<ScoredItem<String>>::new()));
    dispatcher.register_fixed(1, 0, list(|_ctx| vec!["fixed".to_string()]));

    let result = run(&dispatcher, "unknown", Some(10));
    assert_eq!(result.stage, DispatchStage::Fixed);
    assert_eq!(result.items.len(), 1);
    assert_eq!(result.items[0].value, "fixed");
}

#[test]
fn fixed_fill_when_any_not_enough_for_limit() {
    let mut dispatcher = ShortcutsDispatcher::<Handler>::new();
    dispatcher.register_any(0, scored(|_ctx| vec![ScoredItem { score: 100, value: "any".to_string() }]));
    dispatcher.register_fixed(1, 0, list(|_ctx| vec!["fixed1".to_string(), "fixed2".to_string()]));

    let result = run(&dispatcher, "unknown", Some(2));
    assert_eq!(result.stage, DispatchStage::AnyWithFixed);
    assert_eq!(result.items.len(), 2);
    assert_eq!(result.items[0].value, "any");
    assert_eq!(result.items[1].value, "fixed1");
}

#[test]
fn higher_score_first_whatever_the_registration_order() {
    for low_first in [true, false] {
        let mut d = ShortcutsDispatcher::<Handler>::new();
        let low = || scored(|_ctx| vec![ScoredItem { score: 20, value: "low".to_string() }]);
        let high = || scored(|_ctx| vec![ScoredItem { score: 100, value: "high".to_string() }]);
        if low_first {
            d.register_any(50, low());
            d.register_any(0, high());
        } else {
            d.register_any(0, high());
            d.register_any(50, low());
        }
        let r = run(&d, "q", None);
        assert_eq!(values(&r), vec!["high", "low"]);
        assert_eq!(r.items[0].score, 100);
        assert_eq!(r.items[1].score, 20);
    }
}

#[test]
fn ties_break_by_priority_then_registration_then_item_order() {
    let mut d = ShortcutsDispatcher::<Handler>::new();
    d.register_any(
        1,
        scored(|_ctx| {
            vec![
                ScoredItem { score: 5, value: "a1".to_string() },
                ScoredItem { score: 5, value: "a2".to_string() },
            ]
        }),
    );
    d.register_any(1, scored(|_ctx| vec![ScoredItem { score: 5, value: "b".to_string() }]));
    d.register_any(9, scored(|_ctx| vec![ScoredItem { score: 5, value: "c".to_string() }]));
    let r = run(&d, "q", None);
    assert_eq!(values(&r), vec!["c", "a1", "a2", "b"]);
}

#[test]
fn duplicate_exact_key_is_refused() {
    let mut d = ShortcutsDispatcher::<Handler>::new();
    assert!(d.register_exact('=', list(|_ctx| vec!["one".to_string()])).is_ok());
    match d.register_exact('=', list(|_ctx| vec!["two".to_string()])) {
        Err(ShortcutError::DuplicateExactKey(c)) => assert_eq!(c, '='),
        Ok(()) => panic!("second handler for one key was accepted"),
    }
    let r = run(&d, "=1+1", None);
    assert_eq!(values(&r), vec!["one"]);
}

#[test]
fn exact_scores_descend_and_respect_limit() {
    let mut d = ShortcutsDispatcher::<Handler>::new();
    d.register_exact(
        '#',
        list(|ctx| vec![ctx.rest_after_prefix.clone(), "b".to_string(), "c".to_string()]),
    )
    .unwrap();
    let r = run(&d, "  #tag ", Some(2));
    assert_eq!(r.stage, DispatchStage::Exact);
    assert_eq!(values(&r), vec!["tag", "b"]);
    assert_eq!(r.items[0].score, u64::MAX);
    assert_eq!(r.items[1].score, u64::MAX - 1);
}

#[test]
fn without_fixed_handlers_stage_stays_any() {
    let mut d = ShortcutsDispatcher::<Handler>::new();
    d.register_any(0, scored(|_ctx| Vec::new()));
    let r = run(&d, "q", Some(3));
    assert_eq!(r.stage, DispatchStage::Any);
    assert!(r.items.is_empty());
}

#[test]
fn fixed_not_run_when_any_fills_the_limit() {
    let fixed_called = Arc::new(AtomicUsize::new(0));
    let mut d = ShortcutsDispatcher::<Handler>::new();
    d.register_any(0, scored(|_ctx| vec![ScoredItem { score: 1, value: "a".to_string() }]));
    let c = fixed_called.clone();
    d.register_fixed(
        1,
        0,
        list(move |_ctx| {
            c.fetch_add(1, Ordering::SeqCst);
            vec!["f".to_string()]
        }),
    );
    let r = run(&d, "q", Some(1));
    assert_eq!(r.stage, DispatchStage::Any);
    assert_eq!(values(&r), vec!["a"]);
    let r = run(&d, "q", None);
    assert_eq!(r.stage, DispatchStage::Any);
    assert_eq!(fixed_called.load(Ordering::SeqCst), 0);
}

#[test]
fn fixed_items_rank_by_declared_score() {
    let mut d = ShortcutsDispatcher::<Handler>::new();
    d.register_fixed(1, 0, list(|_ctx| vec!["low".to_string()]));
    d.register_fixed(7, 0, list(|_ctx| vec!["high".to_string()]));
    let r = run(&d, "", None);
    assert_eq!(r.stage, DispatchStage::Fixed);
    assert_eq!(values(&r), vec!["high", "low"]);
    assert_eq!(r.items[0].score, 7);
}

#[test]
fn combine_appends_fixed_into_free_slots() {
    let any = vec![RankedItem { score: 9, plugin_priority: 0, register_order: 0, item_order: 0, value: "a" }];
    let fixed = vec![
        RankedItem { score: 1, plugin_priority: 0, register_order: 1, item_order: 0, value: "f1" },
        RankedItem { score: 1, plugin_priority: 0, register_order: 1, item_order: 1, value: "f2" },
    ];
    let r = ShortcutsDispatcher::<Handler>::combine(any, Some(fixed), Some(2));
    assert_eq!(r.stage, DispatchStage::AnyWithFixed);
    let vals: Vec<&str> = r.into_values();
    assert_eq!(vals, vec!["a", "f1"]);
}

#[test]
fn shortcut_context_splits_the_input() {
    let ctx = ShortcutContext::new("  >find me ");
    assert_eq!(ctx.raw_input, "  >find me ");
    assert_eq!(ctx.trimmed_input, ">find me");
    assert_eq!(ctx.rest_after_prefix, "find me");
    assert_eq!(ctx.prefix(), Some('>'));
    let empty = ShortcutContext::new("   ");
    assert_eq!(empty.prefix(), None);
    assert_eq!(empty.rest_after_prefix, "");
}

#[test]
fn scored_item_new_keeps_fields() {
    let it = ScoredItem::new(3, "v");
    assert_eq!(it.score, 3);
    assert_eq!(it.value, "v");
}

#[test]
fn rank_orders_by_the_full_key() {
    let item = |score, prio, reg, ord, v| RankedItem { score, plugin_priority: prio, register_order: reg, item_order: ord, value: v };
    let pool = vec![
        item(1, 0, 0, 0, "e"),
        item(5, 0, 2, 1, "d"),
        item(5, 0, 2, 0, "c"),
        item(5, 0, 1, 3, "b"),
        item(5, 3, 9, 0, "a"),
    ];
    let ranked = focus_core::shortcut::rank(pool);
    let vals: Vec<&str> = ranked.iter().map(|r| r.value).collect();
    assert_eq!(vals, vec!["a", "b", "c", "d", "e"]);
}

#[test]
fn rank_any_ignores_answers_beyond_the_handlers() {
    let mut d = ShortcutsDispatcher::<Handler>::new();
    d.register_any(0, scored(|_ctx| Vec::new()));
    let answers = vec![
        vec![ScoredItem { score: 1, value: "kept".to_string() }],
        vec![ScoredItem { score: 9, value: "extra".to_string() }],
    ];
    let ranked = d.rank_any(answers);
    assert_eq!(ranked.len(), 1);
    assert_eq!(ranked[0].value, "kept");
    assert_eq!(ranked[0].register_order, 0);
}

#[test]
fn handler_lists_follow_registration_order() {
    let mut d = ShortcutsDispatcher::<u32>::new();
    d.register_any(0, 1);
    d.register_fixed(5, 0, 2);
    d.register_any(3, 3);
    d.register_exact('!', 4).unwrap();
    assert_eq!(d.any_handler_refs(), vec![&1, &3]);
    assert_eq!(d.fixed_handler_refs(), vec![&2]);
    assert_eq!(d.exact_handler('!'), Some(&4));
    assert!(d.register_exact('!', 9).is_err());
    assert_eq!(d.exact_handler('!'), Some(&4));
}

#[test]
fn answers_are_fitted_to_the_handlers() {
    let fitted = focus_core::shortcut::fit_answers(vec![vec![1], vec![2], vec![3]], 2);
    assert_eq!(fitted, vec![vec![1], vec![2]]);
    let padded = focus_core::shortcut::fit_answers(vec![vec![1]], 3);
    assert_eq!(padded, vec![vec![1], vec![], vec![]]);
}

#[test]
fn plan_names_the_handlers_to_run() {
    let mut d = ShortcutsDispatcher::<u32>::new();
    d.register_exact('>', 1).unwrap();
    d.register_any(0, 2);
    d.register_any(0, 3);
    d.register_fixed(1, 0, 4);
    match d.plan(&ShortcutContext::new("  >query")) {
        TierPlan::Exact(h) => assert_eq!(*h, 1),
        TierPlan::Any(_) => panic!("exact input planned the Any tier"),
    }
    match d.plan(&ShortcutContext::new("query")) {
        TierPlan::Any(hs) => assert_eq!(hs, vec![&2, &3]),
        TierPlan::Exact(_) => panic!("plain input planned the Exact tier"),
    }
    assert_eq!(d.fixed_plan(0, None), Some(vec![&4]));
    assert_eq!(d.fixed_plan(1, Some(2)), Some(vec![&4]));
    assert_eq!(d.fixed_plan(2, Some(2)), None);
    assert_eq!(d.fixed_plan(3, None), None);
}
