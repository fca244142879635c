use vstd::prelude::*;
use vstd::multiset::Multiset;
use vstd::string::*;

use crate::text::{trim_text, trimmed};

verus! {

/// The input of one scored dispatch, as handlers see it.
#[derive(Debug, Clone)]
pub struct ShortcutContext {
    pub raw_input: String,
    pub trimmed_input: String,
    pub rest_after_prefix: String,
}

pub open spec fn rest_after_first(s: Seq<char>) -> Seq<char> {
    if s.len() == 0 {
        seq![]
    } else {
        s.drop_first()
    }
}

pub open spec fn first_char(s: Seq<char>) -> Option<char> {
    if s.len() == 0 {
        None
    } else {
        Some(s[0])
    }
}

impl ShortcutContext {
    pub fn new(input: &str) -> (r: Self)
        ensures
            r.raw_input@ == input@,
            r.trimmed_input@ == trimmed(input@),
            r.rest_after_prefix@ == rest_after_first(trimmed(input@)),
    {
        let trimmed_input = trim_text(input);
        let n = trimmed_input.as_str().unicode_len();
        let rest_after_prefix = if n == 0 {
            String::new()
        } else {
            String::from_str(trimmed_input.as_str().substring_char(1, n))
        };
        assert(n > 0 ==> trimmed_input@.subrange(1, n as int) =~= trimmed_input@.drop_first());
        ShortcutContext { raw_input: String::from_str(input), trimmed_input, rest_after_prefix }
    }

    /// The first character of the trimmed input.
    pub fn prefix(&self) -> (r: Option<char>)
        ensures
            r == first_char(self.trimmed_input@),
    {
        let s = self.trimmed_input.as_str();
        if s.unicode_len() == 0 {
            None
        } else {
            Some(s.get_char(0))
        }
    }
}

#[derive(Debug, Clone)]
pub struct ScoredItem<T> {
    pub score: u64,
    pub value: T,
}

impl<T> ScoredItem<T> {
    pub fn new(score: u64, value: T) -> (r: Self)
        ensures
            r.score == score,
            r.value == value,
    {
        ScoredItem { score, value }
    }
}

#[derive(Debug, Clone, Copy, PartialEq, Eq, Structural)]
pub enum DispatchStage {
    Exact,
    Any,
    Fixed,
    AnyWithFixed,
}

#[derive(Debug, Clone)]
pub struct ShortcutResult<T> {
    pub stage: DispatchStage,
    pub items: Vec<ScoredItem<T>>,
}

impl<T> ShortcutResult<T> {
    /// The item values, in ranked order.
    pub fn into_values(self) -> (r: Vec<T>)
        ensures
            r@ == self.items@.map_values(|it: ScoredItem<T>| it.value),
    {
        let mut items = self.items;
        let ghost all = items@;
        let mut out: Vec<T> = Vec::new();
        let n = items.len();
        let mut i: usize = 0;
        while i < n
            invariant
                n == all.len(),
                i <= n,
                items@ == all.subrange(i as int, n as int),
                out@ == all.subrange(0, i as int).map_values(|it: ScoredItem<T>| it.value),
            decreases n - i,
        {
            let it = items.remove(0);
            out.push(it.value);
            assert(items@ =~= all.subrange(i + 1, n as int));
            assert(out@ =~= all.subrange(0, i + 1).map_values(|it: ScoredItem<T>| it.value));
            i = i + 1;
        }
        assert(all.subrange(0, n as int) =~= all);
        out
    }
}

#[derive(Debug)]
pub enum ShortcutError {
    DuplicateExactKey(char),
}

/// A handler to register, with what ranks its results.
pub enum ShortcutRegistration<H> {
    /// Answers alone for input whose first character is `key`.
    Exact { key: char, handler: H },
    /// Scores its own items; every such handler runs on each query.
    Any { plugin_priority: i32, handler: H },
    /// Fallback items, all ranked at `score`.
    Fixed { score: u64, plugin_priority: i32, handler: H },
}

impl<H> ShortcutRegistration<H> {
    pub fn exact(key: char, handler: H) -> (r: Self)
        ensures
            r == (ShortcutRegistration::Exact { key, handler }),
    {
        ShortcutRegistration::Exact { key, handler }
    }

    pub fn any(plugin_priority: i32, handler: H) -> (r: Self)
        ensures
            r == (ShortcutRegistration::Any { plugin_priority, handler }),
    {
        ShortcutRegistration::Any { plugin_priority, handler }
    }

    pub fn fixed(score: u64, plugin_priority: i32, handler: H) -> (r: Self)
        ensures
            r == (ShortcutRegistration::Fixed { score, plugin_priority, handler }),
    {
        ShortcutRegistration::Fixed { score, plugin_priority, handler }
    }
}

/// Runs the handlers of one tier and hands back what each returned, in the
/// order given. This is where handlers may run concurrently.
pub trait ShortcutRunner<H, T> {
    fn run_exact(&mut self, handler: &H, ctx: &ShortcutContext) -> Vec<T>;

    fn run_any(&mut self, handlers: Vec<&H>, ctx: &ShortcutContext) -> Vec<Vec<ScoredItem<T>>>;

    fn run_fixed(&mut self, handlers: Vec<&H>, ctx: &ShortcutContext) -> Vec<Vec<T>>;
}

/// One result with its full ranking key.
pub struct RankedItem<T> {
    pub score: u64,
    pub plugin_priority: i32,
    pub register_order: usize,
    pub item_order: usize,
    pub value: T,
}

/// `a` ranks strictly before `b`: higher score, then higher plugin priority,
/// then earlier registration, then earlier place in its handler's answer.
pub open spec fn ranks_before<T>(a: RankedItem<T>, b: RankedItem<T>) -> bool {
    ||| a.score > b.score
    ||| a.score == b.score && a.plugin_priority > b.plugin_priority
    ||| a.score == b.score && a.plugin_priority == b.plugin_priority && a.register_order
        < b.register_order
    ||| a.score == b.score && a.plugin_priority == b.plugin_priority && a.register_order
        == b.register_order && a.item_order < b.item_order
}

/// No item ranks strictly before one that precedes it.
pub open spec fn is_ranked<T>(s: Seq<RankedItem<T>>) -> bool {
    forall|i: int, j: int| 0 <= i < j < s.len() ==> !ranks_before(#[trigger] s[j], #[trigger] s[i])
}

pub open spec fn scored<T>(s: Seq<RankedItem<T>>) -> Seq<ScoredItem<T>> {
    s.map_values(|r: RankedItem<T>| ScoredItem { score: r.score, value: r.value })
}

/// `s` cut to at most `limit` items.
pub open spec fn truncated<A>(s: Seq<A>, limit: Option<usize>) -> Seq<A> {
    match limit {
        Some(l) => if s.len() > l {
            s.take(l as int)
        } else {
            s
        },
        None => s,
    }
}

/// An exact handler's answer, in its own order, with strictly descending scores.
pub open spec fn exact_scored<T>(values: Seq<T>) -> Seq<ScoredItem<T>> {
    Seq::new(values.len(), |i: int| ScoredItem { score: (u64::MAX - i) as u64, value: values[i] })
}

pub open spec fn tag_scored<T>(plugin_priority: i32, order: usize, items: Seq<ScoredItem<T>>) -> Seq<
    RankedItem<T>,
> {
    Seq::new(
        items.len(),
        |j: int|
            RankedItem {
                score: items[j].score,
                plugin_priority,
                register_order: order,
                item_order: j as usize,
                value: items[j].value,
            },
    )
}

pub open spec fn tag_fixed<T>(score: u64, plugin_priority: i32, order: usize, items: Seq<T>) -> Seq<
    RankedItem<T>,
> {
    Seq::new(
        items.len(),
        |j: int|
            RankedItem {
                score,
                plugin_priority,
                register_order: order,
                item_order: j as usize,
                value: items[j],
            },
    )
}

/// The items of the first `n` Any handlers, each tagged with its handler's key.
pub open spec fn any_pool<H, T>(
    entries: Seq<(H, i32, usize)>,
    results: Seq<Vec<ScoredItem<T>>>,
    n: nat,
) -> Seq<RankedItem<T>>
    decreases n,
{
    if n == 0 {
        seq![]
    } else {
        any_pool(entries, results, (n - 1) as nat) + tag_scored(
            entries[n - 1].1,
            entries[n - 1].2,
            results[n - 1]@,
        )
    }
}

/// The items of the first `n` Fixed handlers, each at its handler's score.
pub open spec fn fixed_pool<H, T>(
    entries: Seq<(H, u64, i32, usize)>,
    results: Seq<Vec<T>>,
    n: nat,
) -> Seq<RankedItem<T>>
    decreases n,
{
    if n == 0 {
        seq![]
    } else {
        fixed_pool(entries, results, (n - 1) as nat) + tag_fixed(
            entries[n - 1].1,
            entries[n - 1].2,
            entries[n - 1].3,
            results[n - 1]@,
        )
    }
}

pub open spec fn min_nat(a: nat, b: nat) -> nat {
    if a <= b {
        a
    } else {
        b
    }
}

/// The slots left for Fixed items once `taken` Any items are placed.
pub open spec fn fixed_limit(limit: Option<usize>, taken: nat) -> Option<usize> {
    match limit {
        Some(l) => Some(if taken >= l {
            0usize
        } else {
            (l - taken) as usize
        }),
        None => None,
    }
}

pub open spec fn combined_items<T>(
    any: Seq<RankedItem<T>>,
    fixed: Option<Seq<RankedItem<T>>>,
    limit: Option<usize>,
) -> Seq<ScoredItem<T>> {
    match fixed {
        None => truncated(scored(any), limit),
        Some(f) => truncated(
            scored(any) + truncated(scored(f), fixed_limit(limit, any.len())),
            limit,
        ),
    }
}

pub open spec fn combined_stage<T>(
    any: Seq<RankedItem<T>>,
    fixed: Option<Seq<RankedItem<T>>>,
    limit: Option<usize>,
) -> DispatchStage {
    match fixed {
        None => DispatchStage::Any,
        Some(f) => if any.len() == 0 {
            DispatchStage::Fixed
        } else if truncated(scored(f), fixed_limit(limit, any.len())).len() > 0 {
            DispatchStage::AnyWithFixed
        } else {
            DispatchStage::Any
        },
    }
}

/// Whether the Fixed tier runs after `any_len` Any items.
pub open spec fn fixed_needed(any_len: nat, limit: Option<usize>, fixed_count: nat) -> bool {
    (any_len == 0 || (limit matches Some(l) && any_len < l)) && fixed_count > 0
}

pub open spec fn opt_view<T>(v: Option<Vec<RankedItem<T>>>) -> Option<Seq<RankedItem<T>>> {
    match v {
        Some(f) => Some(f@),
        None => None,
    }
}

/// Index of the Exact handler for `key`, or `exact.len()`.
pub open spec fn exact_index<H>(exact: Seq<(char, H)>, key: char) -> int
    decreases exact.len(),
{
    if exact.len() == 0 {
        0
    } else if exact[0].0 == key {
        0
    } else {
        1 + exact_index(exact.drop_first(), key)
    }
}

pub open spec fn has_exact<H>(exact: Seq<(char, H)>, key: char) -> bool {
    exists|i: int| 0 <= i < exact.len() && #[trigger] exact[i].0 == key
}

/// The registrations of a dispatcher, in registration order within each tier.
pub struct DispatcherView<H> {
    pub exact: Seq<(char, H)>,
    pub any: Seq<(H, i32, usize)>,
    pub fixed: Seq<(H, u64, i32, usize)>,
    pub next_order: usize,
}

struct ExactEntry<H> {
    key: char,
    handler: H,
}

struct AnyEntry<H> {
    handler: H,
    plugin_priority: i32,
    register_order: usize,
}

struct FixedEntry<H> {
    handler: H,
    score: u64,
    plugin_priority: i32,
    register_order: usize,
}

/// `stage` and `items` are what the scored tiers make of `res`, one answer
/// per Any handler, ranked as `a`; and, exactly when the Fixed tier is
/// needed, of `fres`, one answer per Fixed handler, ranked as `f`.
pub open spec fn tiers_yield<H, T>(
    d: DispatcherView<H>,
    top_k: Option<usize>,
    stage: DispatchStage,
    items: Seq<ScoredItem<T>>,
    res: Seq<Vec<ScoredItem<T>>>,
    a: Seq<RankedItem<T>>,
    fres: Seq<Vec<T>>,
    f: Option<Seq<RankedItem<T>>>,
) -> bool {
    &&& res.len() == d.any.len()
    &&& is_ranked(a)
    &&& a.to_multiset() == any_pool(d.any, res, res.len()).to_multiset()
    &&& (f is Some <==> fixed_needed(a.len(), top_k, d.fixed.len()))
    &&& (f matches Some(g) ==> fres.len() == d.fixed.len() && is_ranked(g) && g.to_multiset()
        == fixed_pool(d.fixed, fres, fres.len()).to_multiset())
    &&& stage == combined_stage(a, f, top_k)
    &&& items == combined_items(a, f, top_k)
}

/// The handlers the first step of a query runs.
pub enum TierPlan<'a, H> {
    /// The Exact handler of the input's first character, alone.
    Exact(&'a H),
    /// Every Any handler, in registration order.
    Any(Vec<&'a H>),
}

/// The first character of the trimmed input, when an Exact handler is registered for it.
pub open spec fn exact_key<H>(d: DispatcherView<H>, trimmed_input: Seq<char>) -> Option<char> {
    match first_char(trimmed_input) {
        Some(c) => if has_exact(d.exact, c) {
            Some(c)
        } else {
            None
        },
        None => None,
    }
}

/// What a scored dispatch of `input` may give, whatever the handlers answer:
/// the Exact stage exactly when the first character of the trimmed input has
/// an Exact handler, with that handler's answer scored in its own order; else
/// what the Any and Fixed tiers make of one answer per handler.
pub open spec fn scored_outcome<H, T>(
    d: DispatcherView<H>,
    input: Seq<char>,
    top_k: Option<usize>,
    stage: DispatchStage,
    items: Seq<ScoredItem<T>>,
) -> bool {
    &&& (stage == DispatchStage::Exact) <==> (first_char(trimmed(input)) matches Some(c) && has_exact(
        d.exact,
        c,
    ))
    &&& stage == DispatchStage::Exact ==> exists|v: Seq<T>| #[trigger] truncated(exact_scored(v), top_k) == items
    &&& stage != DispatchStage::Exact ==> exists|
        res: Seq<Vec<ScoredItem<T>>>,
        a: Seq<RankedItem<T>>,
        fres: Seq<Vec<T>>,
        f: Option<Seq<RankedItem<T>>>,
    | #[trigger] tiers_yield(d, top_k, stage, items, res, a, fres, f)
}

/// `answers` cut or padded with empty answers to exactly `n`.
pub fn fit_answers<A>(answers: Vec<Vec<A>>, n: usize) -> (r: Vec<Vec<A>>)
    ensures
        r@.len() == n,
        forall|i: int| 0 <= i < n && i < answers@.len() ==> #[trigger] r@[i] == answers@[i],
        forall|i: int| answers@.len() <= i < n ==> (#[trigger] r@[i])@.len() == 0,
{
    let mut out = answers;
    let ghost orig = out@;
    out.truncate(n);
    while out.len() < n
        invariant
            out@.len() <= n,
            out@.len() < n ==> out@.len() >= orig.len(),
            forall|i: int| 0 <= i < out@.len() && i < orig.len() ==> #[trigger] out@[i] == orig[i],
            forall|i: int| orig.len() <= i < out@.len() ==> (#[trigger] out@[i])@.len() == 0,
        decreases n - out@.len(),
    {
        out.push(Vec::new());
    }
    out
}

/// Registered handlers of the three tiers, and the ranking that joins their answers.
pub struct ShortcutsDispatcher<H> {
    exact_handlers: Vec<ExactEntry<H>>,
    any_handlers: Vec<AnyEntry<H>>,
    fixed_handlers: Vec<FixedEntry<H>>,
    next_register_order: usize,
}

impl<H> View for ShortcutsDispatcher<H> {
    type V = DispatcherView<H>;

    closed spec fn view(&self) -> DispatcherView<H> {
        DispatcherView {
            exact: self.exact_handlers@.map_values(|e: ExactEntry<H>| (e.key, e.handler)),
            any: self.any_handlers@.map_values(
                |e: AnyEntry<H>| (e.handler, e.plugin_priority, e.register_order),
            ),
            fixed: self.fixed_handlers@.map_values(
                |e: FixedEntry<H>| (e.handler, e.score, e.plugin_priority, e.register_order),
            ),
            next_order: self.next_register_order,
        }
    }
}

impl<H> DispatcherView<H> {
    /// Exact keys are unique; within a tier, registration orders rise and stay
    /// below the next one to hand out.
    pub open spec fn wf(&self) -> bool {
        &&& forall|i: int, j: int|
            0 <= i < j < self.exact.len() ==> #[trigger] self.exact[i].0 != #[trigger] self.exact[j].0
        &&& forall|i: int, j: int|
            0 <= i < j < self.any.len() ==> #[trigger] self.any[i].2 < #[trigger] self.any[j].2
        &&& forall|i: int| 0 <= i < self.any.len() ==> #[trigger] self.any[i].2 < self.next_order
        &&& forall|i: int, j: int|
            0 <= i < j < self.fixed.len() ==> #[trigger] self.fixed[i].3 < #[trigger] self.fixed[j].3
        &&& forall|i: int| 0 <= i < self.fixed.len() ==> #[trigger] self.fixed[i].3 < self.next_order
    }
}

fn ranks_before_exec<T>(a: &RankedItem<T>, b: &RankedItem<T>) -> (r: bool)
    ensures
        r == ranks_before(*a, *b),
{
    if a.score != b.score {
        a.score > b.score
    } else if a.plugin_priority != b.plugin_priority {
        a.plugin_priority > b.plugin_priority
    } else if a.register_order != b.register_order {
        a.register_order < b.register_order
    } else {
        a.item_order < b.item_order
    }
}

/// Orders `pool` by the ranking key.
pub fn rank<T>(pool: Vec<RankedItem<T>>) -> (r: Vec<RankedItem<T>>)
    ensures
        is_ranked(r@),
        r@.to_multiset() == pool@.to_multiset(),
{
    broadcast use vstd::seq_lib::group_to_multiset_ensures;

    let ghost all = pool@;
    let mut rest = pool;
    let mut out: Vec<RankedItem<T>> = Vec::new();
    assert(out@.to_multiset().add(rest@.to_multiset()) =~= all.to_multiset());
    while rest.len() > 0
        invariant
            is_ranked(out@),
            out@.to_multiset().add(rest@.to_multiset()) == all.to_multiset(),
            forall|i: int, j: int|
                0 <= i < out@.len() && 0 <= j < rest@.len() ==> !ranks_before(
                    #[trigger] rest@[j],
                    #[trigger] out@[i],
                ),
        decreases rest@.len(),
    {
        let n = rest.len();
        let mut b: usize = 0;
        let mut k: usize = 1;
        while k < n
            invariant
                n == rest@.len(),
                b < k <= n,
                forall|j: int| 0 <= j < k ==> !ranks_before(#[trigger] rest@[j], rest@[b as int]),
            decreases n - k,
        {
            if ranks_before_exec(&rest[k], &rest[b]) {
                b = k;
            }
            k = k + 1;
        }
        let ghost before_rest = rest@;
        let ghost before_out = out@;
        let x = rest.remove(b);
        out.push(x);
        assert(before_rest.contains(x));
        assert(x == before_rest[b as int]);
        assert(out@ == before_out.push(x));
        assert(rest@ == before_rest.remove(b as int));
        proof {
            vstd::seq_lib::to_multiset_build(before_out, x);
            vstd::seq_lib::to_multiset_remove(before_rest, b as int);
            before_rest.to_multiset_ensures();
        }
        assert(before_rest.to_multiset().count(x) > 0);
        assert(out@.to_multiset().add(rest@.to_multiset()) =~= before_out.to_multiset().add(
            before_rest.to_multiset(),
        ));
        assert forall|i: int, j: int| 0 <= i < j < out@.len() implies !ranks_before(
            #[trigger] out@[j],
            #[trigger] out@[i],
        ) by {
            if j == out@.len() - 1 {
                assert(before_rest[b as int] == out@[j]);
            }
        }
        assert forall|i: int, j: int|
            0 <= i < out@.len() && 0 <= j < rest@.len() implies !ranks_before(
            #[trigger] rest@[j],
            #[trigger] out@[i],
        ) by {
            let jj = if j < b {
                j
            } else {
                j + 1
            };
            assert(rest@[j] == before_rest[jj]);
        }
    }
    assert(rest@.to_multiset() =~= Multiset::empty());
    assert(out@.to_multiset().add(Multiset::empty()) =~= out@.to_multiset());
    out
}

fn to_scored<T>(ranked: Vec<RankedItem<T>>) -> (r: Vec<ScoredItem<T>>)
    ensures
        r@ == scored(ranked@),
{
    let mut rest = ranked;
    let ghost all = rest@;
    let n = rest.len();
    let mut out: Vec<ScoredItem<T>> = Vec::new();
    let mut i: usize = 0;
    while i < n
        invariant
            n == all.len(),
            i <= n,
            rest@ == all.subrange(i as int, n as int),
            out@ == scored(all.subrange(0, i as int)),
        decreases n - i,
    {
        let it = rest.remove(0);
        out.push(ScoredItem { score: it.score, value: it.value });
        assert(rest@ =~= all.subrange(i + 1, n as int));
        assert(out@ =~= scored(all.subrange(0, i + 1)));
        i = i + 1;
    }
    assert(all.subrange(0, n as int) =~= all);
    out
}

fn truncate_if_needed<U>(items: &mut Vec<U>, limit: Option<usize>)
    ensures
        final(items)@ == truncated(old(items)@, limit),
{
    match limit {
        Some(l) => {
            if items.len() > l {
                items.truncate(l);
            }
        },
        None => {},
    }
}

impl<H> Default for ShortcutsDispatcher<H> {
    fn default() -> (r: Self)
        ensures
            r.wf(),
            r@.exact.len() == 0,
            r@.any.len() == 0,
            r@.fixed.len() == 0,
            r@.next_order == 0,
    {
        ShortcutsDispatcher::new()
    }
}

impl<H> ShortcutsDispatcher<H> {
    pub open spec fn wf(&self) -> bool {
        self@.wf()
    }

    pub fn new() -> (r: Self)
        ensures
            r.wf(),
            r@.exact.len() == 0,
            r@.any.len() == 0,
            r@.fixed.len() == 0,
            r@.next_order == 0,
    {
        let r = ShortcutsDispatcher {
            exact_handlers: Vec::new(),
            any_handlers: Vec::new(),
            fixed_handlers: Vec::new(),
            next_register_order: 0,
        };
        assert(r@.exact =~= seq![]);
        assert(r@.any =~= seq![]);
        assert(r@.fixed =~= seq![]);
        r
    }

    /// Registers one handler. A second Exact handler for a key already taken
    /// is refused and leaves the dispatcher as it was.
    pub fn register(&mut self, registration: ShortcutRegistration<H>) -> (r: Result<(), ShortcutError>)
        requires
            old(self).wf(),
            old(self)@.next_order < usize::MAX,
        ensures
            final(self).wf(),
            match registration {
                ShortcutRegistration::Exact { key, handler } => if has_exact(old(self)@.exact, key) {
                    r matches Err(ShortcutError::DuplicateExactKey(k)) && k == key && final(self)@
                        == old(self)@
                } else {
                    r is Ok && final(self)@ == (DispatcherView {
                        exact: old(self)@.exact.push((key, handler)),
                        ..old(self)@
                    })
                },
                ShortcutRegistration::Any { plugin_priority, handler } => r is Ok && final(self)@
                    == (DispatcherView {
                    any: old(self)@.any.push((handler, plugin_priority, old(self)@.next_order)),
                    next_order: (old(self)@.next_order + 1) as usize,
                    ..old(self)@
                }),
                ShortcutRegistration::Fixed { score, plugin_priority, handler } => r is Ok
                    && final(self)@ == (DispatcherView {
                    fixed: old(self)@.fixed.push(
                        (handler, score, plugin_priority, old(self)@.next_order),
                    ),
                    next_order: (old(self)@.next_order + 1) as usize,
                    ..old(self)@
                }),
            },
    {
        match registration {
            ShortcutRegistration::Exact { key, handler } => {
                let i = self.exact_position(key);
                if i < self.exact_handlers.len() {
                    return Err(ShortcutError::DuplicateExactKey(key));
                }
                self.exact_handlers.push(ExactEntry { key, handler });
                assert(self@.exact =~= old(self)@.exact.push((key, handler)));
                Ok(())
            },
            ShortcutRegistration::Any { plugin_priority, handler } => {
                let register_order = self.take_register_order();
                self.any_handlers.push(AnyEntry { handler, plugin_priority, register_order });
                assert(self@.any =~= old(self)@.any.push((handler, plugin_priority, register_order)));
                Ok(())
            },
            ShortcutRegistration::Fixed { score, plugin_priority, handler } => {
                let register_order = self.take_register_order();
                self.fixed_handlers.push(
                    FixedEntry { handler, score, plugin_priority, register_order },
                );
                assert(self@.fixed =~= old(self)@.fixed.push(
                    (handler, score, plugin_priority, register_order),
                ));
                Ok(())
            },
        }
    }

    pub fn register_exact(&mut self, key: char, handler: H) -> (r: Result<(), ShortcutError>)
        requires
            old(self).wf(),
            old(self)@.next_order < usize::MAX,
        ensures
            final(self).wf(),
            if has_exact(old(self)@.exact, key) {
                r matches Err(ShortcutError::DuplicateExactKey(k)) && k == key && final(self)@
                    == old(self)@
            } else {
                r is Ok && final(self)@ == (DispatcherView {
                    exact: old(self)@.exact.push((key, handler)),
                    ..old(self)@
                })
            },
    {
        self.register(ShortcutRegistration::exact(key, handler))
    }

    pub fn register_any(&mut self, plugin_priority: i32, handler: H)
        requires
            old(self).wf(),
            old(self)@.next_order < usize::MAX,
        ensures
            final(self).wf(),
            final(self)@ == (DispatcherView {
                any: old(self)@.any.push((handler, plugin_priority, old(self)@.next_order)),
                next_order: (old(self)@.next_order + 1) as usize,
                ..old(self)@
            }),
    {
        let _ = self.register(ShortcutRegistration::any(plugin_priority, handler));
    }

    pub fn register_fixed(&mut self, score: u64, plugin_priority: i32, handler: H)
        requires
            old(self).wf(),
            old(self)@.next_order < usize::MAX,
        ensures
            final(self).wf(),
            final(self)@ == (DispatcherView {
                fixed: old(self)@.fixed.push(
                    (handler, score, plugin_priority, old(self)@.next_order),
                ),
                next_order: (old(self)@.next_order + 1) as usize,
                ..old(self)@
            }),
    {
        let _ = self.register(ShortcutRegistration::fixed(score, plugin_priority, handler));
    }

    fn take_register_order(&mut self) -> (r: usize)
        requires
            old(self).wf(),
            old(self).next_register_order < usize::MAX,
        ensures
            r == old(self).next_register_order,
            final(self).next_register_order == r + 1,
            final(self).exact_handlers == old(self).exact_handlers,
            final(self).any_handlers == old(self).any_handlers,
            final(self).fixed_handlers == old(self).fixed_handlers,
    {
        let order = self.next_register_order;
        self.next_register_order = order + 1;
        order
    }

    fn exact_position(&self, key: char) -> (r: usize)
        ensures
            r == exact_index(self@.exact, key),
            r <= self@.exact.len(),
            r < self@.exact.len() <==> has_exact(self@.exact, key),
            r < self@.exact.len() ==> self@.exact[r as int].0 == key,
    {
        let ghost ex = self@.exact;
        let n = self.exact_handlers.len();
        let mut i: usize = 0;
        assert(ex.subrange(0, n as int) =~= ex);
        while i < n
            invariant
                ex == self@.exact,
                n == ex.len(),
                i <= n,
                exact_index(ex, key) == i + exact_index(ex.subrange(i as int, n as int), key),
                forall|j: int| 0 <= j < i ==> ex[j].0 != key,
            decreases n - i,
        {
            if self.exact_handlers[i].key == key {
                assert(ex.subrange(i as int, n as int)[0] == ex[i as int]);
                return i;
            }
            assert(ex.subrange(i as int, n as int).drop_first() =~= ex.subrange(i + 1, n as int));
            i = i + 1;
        }
        i
    }

    /// The Exact handler registered for `key`, if any.
    pub fn exact_handler(&self, key: char) -> (r: Option<&H>)
        ensures
            r is Some <==> has_exact(self@.exact, key),
            r matches Some(h) ==> *h == self@.exact[exact_index(self@.exact, key)].1,
    {
        let i = self.exact_position(key);
        if i < self.exact_handlers.len() {
            Some(&self.exact_handlers[i].handler)
        } else {
            None
        }
    }

    /// An Exact handler's answer scored in its own order and cut to `limit`.
    pub fn finish_exact<T>(values: Vec<T>, limit: Option<usize>) -> (r: ShortcutResult<T>)
        ensures
            r.stage == DispatchStage::Exact,
            r.items@ == truncated(exact_scored(values@), limit),
    {
        let mut rest = values;
        let ghost all = rest@;
        let n = rest.len();
        let mut items: Vec<ScoredItem<T>> = Vec::new();
        let mut i: usize = 0;
        while i < n
            invariant
                n == all.len(),
                i <= n,
                rest@ == all.subrange(i as int, n as int),
                items@ == exact_scored(all.subrange(0, i as int)),
            decreases n - i,
        {
            let v = rest.remove(0);
            let score = u64::MAX - i as u64;
            items.push(ScoredItem { score, value: v });
            assert(rest@ =~= all.subrange(i + 1, n as int));
            assert(items@ =~= exact_scored(all.subrange(0, i + 1)));
            i = i + 1;
        }
        assert(all.subrange(0, n as int) =~= all);
        truncate_if_needed(&mut items, limit);
        ShortcutResult { stage: DispatchStage::Exact, items }
    }

    /// Tags each Any handler's answer with that handler's ranking key and
    /// ranks them all. Answers beyond the registered handlers are ignored.
    pub fn rank_any<T>(&self, results: Vec<Vec<ScoredItem<T>>>) -> (r: Vec<RankedItem<T>>)
        requires
            self.wf(),
        ensures
            is_ranked(r@),
            r@.to_multiset() == any_pool(
                self@.any,
                results@,
                min_nat(self@.any.len(), results@.len()),
            ).to_multiset(),
    {
        let ghost entries = self@.any;
        let ghost res = results@;
        let m = if self.any_handlers.len() <= results.len() {
            self.any_handlers.len()
        } else {
            results.len()
        };
        let mut rest = results;
        let mut pool: Vec<RankedItem<T>> = Vec::new();
        let mut k: usize = 0;
        while k < m
            invariant
                entries == self@.any,
                m == min_nat(entries.len(), res.len()),
                k <= m,
                rest@ == res.subrange(k as int, res.len() as int),
                pool@ == any_pool(entries, res, k as nat),
            decreases m - k,
        {
            let mut items = rest.remove(0);
            assert(rest@ =~= res.subrange(k + 1, res.len() as int));
            let ghost its = items@;
            assert(its == res[k as int]@);
            let prio = self.any_handlers[k].plugin_priority;
            let order = self.any_handlers[k].register_order;
            let cnt = items.len();
            let mut j: usize = 0;
            let ghost base = pool@;
            assert(tag_scored(prio, order, its).subrange(0, 0) =~= seq![]);
            assert(base + seq![] =~= base);
            while j < cnt
                invariant
                    cnt == its.len(),
                    j <= cnt,
                    items@ == its.subrange(j as int, cnt as int),
                    pool@ == base + tag_scored(prio, order, its).subrange(0, j as int),
                decreases cnt - j,
            {
                let it = items.remove(0);
                assert(items@ =~= its.subrange(j + 1, cnt as int));
                pool.push(
                    RankedItem {
                        score: it.score,
                        plugin_priority: prio,
                        register_order: order,
                        item_order: j,
                        value: it.value,
                    },
                );
                assert(pool@ =~= base + tag_scored(prio, order, its).subrange(0, j + 1));
                j = j + 1;
            }
            assert(tag_scored(prio, order, its).subrange(0, cnt as int) =~= tag_scored(
                prio,
                order,
                its,
            ));
            k = k + 1;
        }
        rank(pool)
    }

    /// Tags each Fixed handler's answer with that handler's score and key and
    /// ranks them all. Answers beyond the registered handlers are ignored.
    pub fn rank_fixed<T>(&self, results: Vec<Vec<T>>) -> (r: Vec<RankedItem<T>>)
        requires
            self.wf(),
        ensures
            is_ranked(r@),
            r@.to_multiset() == fixed_pool(
                self@.fixed,
                results@,
                min_nat(self@.fixed.len(), results@.len()),
            ).to_multiset(),
    {
        let ghost entries = self@.fixed;
        let ghost res = results@;
        let m = if self.fixed_handlers.len() <= results.len() {
            self.fixed_handlers.len()
        } else {
            results.len()
        };
        let mut rest = results;
        let mut pool: Vec<RankedItem<T>> = Vec::new();
        let mut k: usize = 0;
        while k < m
            invariant
                entries == self@.fixed,
                m == min_nat(entries.len(), res.len()),
                k <= m,
                rest@ == res.subrange(k as int, res.len() as int),
                pool@ == fixed_pool(entries, res, k as nat),
            decreases m - k,
        {
            let mut items = rest.remove(0);
            assert(rest@ =~= res.subrange(k + 1, res.len() as int));
            let ghost its = items@;
            assert(its == res[k as int]@);
            let score = self.fixed_handlers[k].score;
            let prio = self.fixed_handlers[k].plugin_priority;
            let order = self.fixed_handlers[k].register_order;
            let cnt = items.len();
            let mut j: usize = 0;
            let ghost base = pool@;
            assert(tag_fixed(score, prio, order, its).subrange(0, 0) =~= seq![]);
            assert(base + seq![] =~= base);
            while j < cnt
                invariant
                    cnt == its.len(),
                    j <= cnt,
                    items@ == its.subrange(j as int, cnt as int),
                    pool@ == base + tag_fixed(score, prio, order, its).subrange(0, j as int),
                decreases cnt - j,
            {
                let v = items.remove(0);
                assert(items@ =~= its.subrange(j + 1, cnt as int));
                pool.push(
                    RankedItem {
                        score,
                        plugin_priority: prio,
                        register_order: order,
                        item_order: j,
                        value: v,
                    },
                );
                assert(pool@ =~= base + tag_fixed(score, prio, order, its).subrange(0, j + 1));
                j = j + 1;
            }
            assert(tag_fixed(score, prio, order, its).subrange(0, cnt as int) =~= tag_fixed(
                score,
                prio,
                order,
                its,
            ));
            k = k + 1;
        }
        rank(pool)
    }

    /// Whether the Fixed tier runs: Any produced nothing, or fewer than `limit`
    /// items, and some Fixed handler is registered.
    pub fn needs_fixed(&self, any_len: usize, limit: Option<usize>) -> (r: bool)
        ensures
            r == fixed_needed(any_len as nat, limit, self@.fixed.len()),
    {
        let underfilled = match limit {
            Some(l) => any_len < l,
            None => false,
        };
        (any_len == 0 || underfilled) && self.fixed_handlers.len() > 0
    }

    /// Joins the ranked Any items with the ranked Fixed items, if that tier
    /// ran: Fixed items fill the slots the Any items left, after them.
    pub fn combine<T>(
        any: Vec<RankedItem<T>>,
        fixed: Option<Vec<RankedItem<T>>>,
        limit: Option<usize>,
    ) -> (r: ShortcutResult<T>)
        ensures
            r.stage == combined_stage(any@, opt_view(fixed), limit),
            r.items@ == combined_items(any@, opt_view(fixed), limit),
    {
        let any_len = any.len();
        let mut any_items = to_scored(any);
        match fixed {
            None => {
                truncate_if_needed(&mut any_items, limit);
                ShortcutResult { stage: DispatchStage::Any, items: any_items }
            },
            Some(f) => {
                let slots = match limit {
                    Some(l) => Some(
                        if any_len >= l {
                            0
                        } else {
                            l - any_len
                        },
                    ),
                    None => None,
                };
                let mut fixed_items = to_scored(f);
                truncate_if_needed(&mut fixed_items, slots);
                let stage = if any_len == 0 {
                    DispatchStage::Fixed
                } else if fixed_items.len() > 0 {
                    DispatchStage::AnyWithFixed
                } else {
                    DispatchStage::Any
                };
                let ghost a = any_items@;
                let ghost fx = fixed_items@;
                any_items.append(&mut fixed_items);
                assert(any_items@ == a + fx);
                truncate_if_needed(&mut any_items, limit);
                ShortcutResult { stage, items: any_items }
            },
        }
    }

    /// References to the Any handlers, in registration order.
    pub fn any_handler_refs(&self) -> (r: Vec<&H>)
        ensures
            r@.len() == self@.any.len(),
            forall|i: int| 0 <= i < r@.len() ==> *#[trigger] r@[i] == self@.any[i].0,
    {
        let mut out: Vec<&H> = Vec::new();
        let mut i: usize = 0;
        while i < self.any_handlers.len()
            invariant
                i <= self.any_handlers@.len(),
                out@.len() == i,
                forall|j: int| 0 <= j < i ==> *#[trigger] out@[j] == self@.any[j].0,
            decreases self.any_handlers@.len() - i,
        {
            out.push(&self.any_handlers[i].handler);
            i = i + 1;
        }
        out
    }

    /// References to the Fixed handlers, in registration order.
    pub fn fixed_handler_refs(&self) -> (r: Vec<&H>)
        ensures
            r@.len() == self@.fixed.len(),
            forall|i: int| 0 <= i < r@.len() ==> *#[trigger] r@[i] == self@.fixed[i].0,
    {
        let mut out: Vec<&H> = Vec::new();
        let mut i: usize = 0;
        while i < self.fixed_handlers.len()
            invariant
                i <= self.fixed_handlers@.len(),
                out@.len() == i,
                forall|j: int| 0 <= j < i ==> *#[trigger] out@[j] == self@.fixed[j].0,
            decreases self.fixed_handlers@.len() - i,
        {
            out.push(&self.fixed_handlers[i].handler);
            i = i + 1;
        }
        out
    }

    /// The first step of a query: the Exact handler of the trimmed input's
    /// first character alone, if one is registered; else every Any handler,
    /// each once, in registration order.
    pub fn plan(&self, ctx: &ShortcutContext) -> (r: TierPlan<'_, H>)
        ensures
            exact_key(self@, ctx.trimmed_input@) matches Some(c) ==> (r matches TierPlan::Exact(h)
                && *h == self@.exact[exact_index(self@.exact, c)].1),
            exact_key(self@, ctx.trimmed_input@) is None ==> (r matches TierPlan::Any(hs) && hs@.len()
                == self@.any.len() && forall|i: int| 0 <= i < hs@.len() ==> *#[trigger] hs@[i]
                == self@.any[i].0),
    {
        match ctx.prefix() {
            Some(c) => {
                match self.exact_handler(c) {
                    Some(h) => {
                        return TierPlan::Exact(h);
                    },
                    None => {},
                }
            },
            None => {},
        }
        TierPlan::Any(self.any_handler_refs())
    }

    /// The second step, after the Any tier produced `any_len` items: every
    /// Fixed handler, each once, in registration order, exactly when the
    /// Fixed tier is needed.
    pub fn fixed_plan(&self, any_len: usize, top_k: Option<usize>) -> (r: Option<Vec<&H>>)
        ensures
            r is Some <==> fixed_needed(any_len as nat, top_k, self@.fixed.len()),
            r matches Some(hs) ==> hs@.len() == self@.fixed.len() && forall|i: int|
                0 <= i < hs@.len() ==> *#[trigger] hs@[i] == self@.fixed[i].0,
    {
        if self.needs_fixed(any_len, top_k) {
            Some(self.fixed_handler_refs())
        } else {
            None
        }
    }

    /// Runs one query by the steps above: the runner is asked to run what
    /// `plan`, then `fixed_plan`, name, and nothing else; its answers are
    /// fitted to the handlers (answers beyond them dropped, missing ones
    /// empty) and ranked.
    pub fn run<T, R: ShortcutRunner<H, T>>(&self, input: &str, runner: &mut R, top_k: Option<usize>) -> (r:
        ShortcutResult<T>)
        requires
            self.wf(),
        ensures
            scored_outcome(self@, input@, top_k, r.stage, r.items@),
            top_k matches Some(k) ==> r.items@.len() <= k,
    {
        let ctx = ShortcutContext::new(input);
        let any_handlers = match self.plan(&ctx) {
            TierPlan::Exact(h) => {
                let values = runner.run_exact(h, &ctx);
                let ghost vs = values@;
                let r = Self::finish_exact(values, top_k);
                assert(truncated(exact_scored(vs), top_k) == r.items@);
                return r;
            },
            TierPlan::Any(hs) => hs,
        };
        let n_any = any_handlers.len();
        let any_results = fit_answers(runner.run_any(any_handlers, &ctx), n_any);
        let ghost res = any_results@;
        let any = self.rank_any(any_results);
        let ghost a = any@;
        match self.fixed_plan(any.len(), top_k) {
            None => {
                let r = Self::combine(any, None, top_k);
                assert(tiers_yield(self@, top_k, r.stage, r.items@, res, a, Seq::<Vec<T>>::empty(), None));
                r
            },
            Some(fixed_handlers) => {
                let n_fixed = fixed_handlers.len();
                let fixed_results = fit_answers(runner.run_fixed(fixed_handlers, &ctx), n_fixed);
                let ghost fres = fixed_results@;
                let fixed = self.rank_fixed(fixed_results);
                let ghost g = fixed@;
                let r = Self::combine(any, Some(fixed), top_k);
                assert(tiers_yield(self@, top_k, r.stage, r.items@, res, a, fres, Some(g)));
                r
            },
        }
    }
}

/// In a ranked sequence an item with a higher score always comes first.
pub proof fn lemma_higher_score_first<T>(ranked: Seq<RankedItem<T>>, i: int, j: int)
    requires
        is_ranked(ranked),
        0 <= i < ranked.len(),
        0 <= j < ranked.len(),
        ranked[i].score > ranked[j].score,
    ensures
        i < j,
{
    if j < i {
        assert(!ranks_before(ranked[i], ranked[j]));
    }
}

/// Two Any handlers answering one item each, with different scores: the
/// ranking puts the higher-scored item first, whichever handler registered
/// first and whatever their plugin priorities.
pub proof fn lemma_two_any_rank_by_score<H, T>(
    d: DispatcherView<H>,
    results: Seq<Vec<ScoredItem<T>>>,
    ranked: Seq<RankedItem<T>>,
)
    requires
        d.wf(),
        d.any.len() == 2,
        results.len() == 2,
        results[0]@.len() == 1,
        results[1]@.len() == 1,
        results[0]@[0].score != results[1]@[0].score,
        is_ranked(ranked),
        ranked.to_multiset() == any_pool(d.any, results, 2).to_multiset(),
    ensures
        ({
            let (hi, lo) = if results[0]@[0].score > results[1]@[0].score {
                (results[0]@[0], results[1]@[0])
            } else {
                (results[1]@[0], results[0]@[0])
            };
            scored(ranked) == seq![hi, lo]
        }),
{
    let pool = any_pool(d.any, results, 2);
    reveal_with_fuel(any_pool, 3);
    let t0 = tag_scored(d.any[0].1, d.any[0].2, results[0]@)[0];
    let t1 = tag_scored(d.any[1].1, d.any[1].2, results[1]@)[0];
    assert(pool =~= seq![t0, t1]);
    pool.to_multiset_ensures();
    ranked.to_multiset_ensures();
    assert(pool.contains(t0) && pool.contains(t1));
    assert(pool.to_multiset().count(t0) > 0);
    assert(pool.to_multiset().count(t1) > 0);
    assert(ranked.to_multiset().count(t0) > 0);
    assert(ranked.to_multiset().count(t1) > 0);
    assert(ranked.contains(t0));
    assert(ranked.contains(t1));
    assert(ranked.len() == 2);
    let (hi, lo) = if t0.score > t1.score {
        (t0, t1)
    } else {
        (t1, t0)
    };
    assert(ranked[0] == hi) by {
        if ranked[0] != hi {
            assert(ranked[1] == hi);
            assert(ranked[0] == lo);
            assert(ranks_before(ranked[1], ranked[0]));
        }
    }
    assert(ranked[1] == lo) by {
        if ranked[1] != lo {
            assert(ranked[1] == hi);
        }
    }
    assert(scored(ranked) =~= seq![
        ScoredItem { score: hi.score, value: hi.value },
        ScoredItem { score: lo.score, value: lo.value },
    ]);
}

pub open spec fn same_key<T>(x: RankedItem<T>, y: RankedItem<T>) -> bool {
    x.score == y.score && x.plugin_priority == y.plugin_priority && x.register_order
        == y.register_order && x.item_order == y.item_order
}

/// Different items of `m` never share a ranking key.
pub open spec fn keys_distinct<T>(m: Multiset<RankedItem<T>>) -> bool {
    forall|x: RankedItem<T>, y: RankedItem<T>|
        m.count(x) > 0 && m.count(y) > 0 && x != y ==> !same_key(x, y)
}

/// Two ranked arrangements of the same items coincide when different items
/// never share a ranking key: the ranking is a total order.
pub proof fn lemma_ranking_unique<T>(a: Seq<RankedItem<T>>, b: Seq<RankedItem<T>>)
    requires
        is_ranked(a),
        is_ranked(b),
        a.to_multiset() == b.to_multiset(),
        keys_distinct(a.to_multiset()),
    ensures
        a == b,
    decreases a.len(),
{
    a.to_multiset_ensures();
    b.to_multiset_ensures();
    if a.len() == 0 {
        assert(a =~= b);
    } else {
        let x = a[0];
        let y = b[0];
        assert(a.contains(x));
        assert(b.contains(y));
        assert(a.to_multiset().count(x) > 0);
        assert(b.to_multiset().count(y) > 0);
        assert(b.contains(x));
        assert(a.contains(y));
        if x != y {
            let j = choose|j: int| 0 <= j < b.len() && b[j] == x;
            let i = choose|i: int| 0 <= i < a.len() && a[i] == y;
            assert(j != 0 && i != 0);
            assert(!ranks_before(b[j], b[0]));
            assert(!ranks_before(a[i], a[0]));
            assert(!same_key(x, y));
        }
        vstd::seq_lib::to_multiset_remove(a, 0);
        vstd::seq_lib::to_multiset_remove(b, 0);
        assert(a.remove(0) =~= a.drop_first());
        assert(b.remove(0) =~= b.drop_first());
        let (a1, b1) = (a.drop_first(), b.drop_first());
        assert(is_ranked(a1)) by {
            assert forall|i: int, j: int| 0 <= i < j < a1.len() implies !ranks_before(
                #[trigger] a1[j],
                #[trigger] a1[i],
            ) by {
                assert(a1[j] == a[j + 1] && a1[i] == a[i + 1]);
            }
        }
        assert(is_ranked(b1)) by {
            assert forall|i: int, j: int| 0 <= i < j < b1.len() implies !ranks_before(
                #[trigger] b1[j],
                #[trigger] b1[i],
            ) by {
                assert(b1[j] == b[j + 1] && b1[i] == b[i + 1]);
            }
        }
        assert(keys_distinct(a1.to_multiset())) by {
            assert forall|u: RankedItem<T>, w: RankedItem<T>|
                a1.to_multiset().count(u) > 0 && a1.to_multiset().count(w) > 0 && u != w implies !same_key(
                u,
                w,
            ) by {
                assert(a.to_multiset().count(u) > 0);
                assert(a.to_multiset().count(w) > 0);
            }
        }
        lemma_ranking_unique(a1, b1);
        assert forall|k: int| 0 <= k < a.len() implies a[k] == b[k] by {
            if k > 0 {
                assert(a[k] == a1[k - 1] && b[k] == b1[k - 1]);
            }
        }
        assert(a =~= b);
    }
}

/// Two ranked arrangements of a pool whose positions all carry different
/// ranking keys coincide.
proof fn lemma_pool_determines_ranking<T>(pool: Seq<RankedItem<T>>, a: Seq<RankedItem<T>>, b: Seq<RankedItem<T>>)
    requires
        forall|i: int, j: int|
            0 <= i < pool.len() && 0 <= j < pool.len() && i != j ==> !same_key(#[trigger] pool[i], #[trigger] pool[j]),
        is_ranked(a),
        is_ranked(b),
        a.to_multiset() == pool.to_multiset(),
        b.to_multiset() == pool.to_multiset(),
    ensures
        a == b,
{
    pool.to_multiset_ensures();
    assert forall|x: RankedItem<T>, y: RankedItem<T>|
        pool.to_multiset().count(x) > 0 && pool.to_multiset().count(y) > 0 && x != y implies !same_key(
        x,
        y,
    ) by {
        assert(pool.contains(x) && pool.contains(y));
        let i = choose|i: int| 0 <= i < pool.len() && pool[i] == x;
        let j = choose|j: int| 0 <= j < pool.len() && pool[j] == y;
        assert(i != j);
    }
    lemma_ranking_unique(a, b);
}

proof fn lemma_any_pool_keys<H, T>(entries: Seq<(H, i32, usize)>, results: Seq<Vec<ScoredItem<T>>>, n: nat)
    requires
        n <= entries.len(),
        n <= results.len(),
        forall|i: int, j: int| 0 <= i < j < entries.len() ==> #[trigger] entries[i].2 < #[trigger] entries[j].2,
    ensures
        forall|i: int, j: int|
            0 <= i < any_pool(entries, results, n).len() && 0 <= j < any_pool(entries, results, n).len()
                && i != j ==> !same_key(
                #[trigger] any_pool(entries, results, n)[i],
                #[trigger] any_pool(entries, results, n)[j],
            ),
        n > 0 ==> forall|i: int|
            0 <= i < any_pool(entries, results, n).len() ==> #[trigger] any_pool(entries, results, n)[i].register_order
                <= entries[n - 1].2,
    decreases n,
{
    if n > 0 {
        let m = (n - 1) as nat;
        lemma_any_pool_keys(entries, results, m);
        let prev = any_pool(entries, results, m);
        let items = results[m as int]@;
        let tag = tag_scored(entries[m as int].1, entries[m as int].2, items);
        let pool = any_pool(entries, results, n);
        assert(pool == prev + tag);
        assert(items.len() <= usize::MAX) by {
            assert(results[m as int]@.len() == results[m as int].len());
        }
        assert forall|i: int| 0 <= i < pool.len() implies #[trigger] pool[i].register_order
            <= entries[n - 1].2 by {
            if i < prev.len() {
                assert(pool[i] == prev[i]);
                if m > 0 {
                    assert(entries[m - 1].2 < entries[m as int].2);
                }
            } else {
                assert(pool[i] == tag[i - prev.len()]);
            }
        }
        assert forall|i: int, j: int|
            0 <= i < pool.len() && 0 <= j < pool.len() && i != j implies !same_key(
            #[trigger] pool[i],
            #[trigger] pool[j],
        ) by {
            if i < prev.len() && j < prev.len() {
                assert(pool[i] == prev[i] && pool[j] == prev[j]);
            } else if i >= prev.len() && j >= prev.len() {
                assert(pool[i] == tag[i - prev.len()] && pool[j] == tag[j - prev.len()]);
            } else {
                if m > 0 {
                    assert(entries[m - 1].2 < entries[m as int].2);
                }
                if i < prev.len() {
                    assert(pool[i] == prev[i] && pool[j] == tag[j - prev.len()]);
                } else {
                    assert(pool[j] == prev[j] && pool[i] == tag[i - prev.len()]);
                }
            }
        }
    }
}

/// Within one dispatch the Any ranking is fully determined by the handlers'
/// answers: any two ranked arrangements of the tagged items coincide.
pub proof fn lemma_any_ranking_deterministic<H, T>(
    d: DispatcherView<H>,
    results: Seq<Vec<ScoredItem<T>>>,
    a: Seq<RankedItem<T>>,
    b: Seq<RankedItem<T>>,
)
    requires
        d.wf(),
        is_ranked(a),
        is_ranked(b),
        a.to_multiset() == any_pool(d.any, results, min_nat(d.any.len(), results.len())).to_multiset(),
        b.to_multiset() == any_pool(d.any, results, min_nat(d.any.len(), results.len())).to_multiset(),
    ensures
        a == b,
{
    let n = min_nat(d.any.len(), results.len());
    let pool = any_pool(d.any, results, n);
    lemma_any_pool_keys(d.any, results, n);
    lemma_pool_determines_ranking(pool, a, b);
}

proof fn lemma_fixed_pool_keys<H, T>(entries: Seq<(H, u64, i32, usize)>, results: Seq<Vec<T>>, n: nat)
    requires
        n <= entries.len(),
        n <= results.len(),
        forall|i: int, j: int| 0 <= i < j < entries.len() ==> #[trigger] entries[i].3 < #[trigger] entries[j].3,
    ensures
        forall|i: int, j: int|
            0 <= i < fixed_pool(entries, results, n).len() && 0 <= j < fixed_pool(entries, results, n).len()
                && i != j ==> !same_key(
                #[trigger] fixed_pool(entries, results, n)[i],
                #[trigger] fixed_pool(entries, results, n)[j],
            ),
        n > 0 ==> forall|i: int|
            0 <= i < fixed_pool(entries, results, n).len() ==> #[trigger] fixed_pool(entries, results, n)[i].register_order
                <= entries[n - 1].3,
    decreases n,
{
    if n > 0 {
        let m = (n - 1) as nat;
        lemma_fixed_pool_keys(entries, results, m);
        let prev = fixed_pool(entries, results, m);
        let items = results[m as int]@;
        let tag = tag_fixed(entries[m as int].1, entries[m as int].2, entries[m as int].3, items);
        let pool = fixed_pool(entries, results, n);
        assert(pool == prev + tag);
        assert(items.len() <= usize::MAX) by {
            assert(results[m as int]@.len() == results[m as int].len());
        }
        assert forall|i: int| 0 <= i < pool.len() implies #[trigger] pool[i].register_order
            <= entries[n - 1].3 by {
            if i < prev.len() {
                assert(pool[i] == prev[i]);
                if m > 0 {
                    assert(entries[m - 1].3 < entries[m as int].3);
                }
            } else {
                assert(pool[i] == tag[i - prev.len()]);
            }
        }
        assert forall|i: int, j: int|
            0 <= i < pool.len() && 0 <= j < pool.len() && i != j implies !same_key(
            #[trigger] pool[i],
            #[trigger] pool[j],
        ) by {
            if i < prev.len() && j < prev.len() {
                assert(pool[i] == prev[i] && pool[j] == prev[j]);
            } else if i >= prev.len() && j >= prev.len() {
                assert(pool[i] == tag[i - prev.len()] && pool[j] == tag[j - prev.len()]);
            } else {
                if m > 0 {
                    assert(entries[m - 1].3 < entries[m as int].3);
                }
                if i < prev.len() {
                    assert(pool[i] == prev[i] && pool[j] == tag[j - prev.len()]);
                } else {
                    assert(pool[j] == prev[j] && pool[i] == tag[i - prev.len()]);
                }
            }
        }
    }
}

/// Within one dispatch the Fixed ranking is fully determined by the handlers'
/// answers: any two ranked arrangements of the tagged items coincide.
pub proof fn lemma_fixed_ranking_deterministic<H, T>(
    d: DispatcherView<H>,
    results: Seq<Vec<T>>,
    a: Seq<RankedItem<T>>,
    b: Seq<RankedItem<T>>,
)
    requires
        d.wf(),
        is_ranked(a),
        is_ranked(b),
        a.to_multiset() == fixed_pool(d.fixed, results, min_nat(d.fixed.len(), results.len())).to_multiset(),
        b.to_multiset() == fixed_pool(d.fixed, results, min_nat(d.fixed.len(), results.len())).to_multiset(),
    ensures
        a == b,
{
    let n = min_nat(d.fixed.len(), results.len());
    let pool = fixed_pool(d.fixed, results, n);
    lemma_fixed_pool_keys(d.fixed, results, n);
    lemma_pool_determines_ranking(pool, a, b);
}

} // verus!
