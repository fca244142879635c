use vstd::prelude::*;
use vstd::string::*;

use crate::text::{join_from, join_words, split_words, starts_with, string_eq, strip_prefix, views, words};

verus! {

/// A typed matcher for one command argument.
pub trait Parameter {
    /// The value `parse` yields for `token`, or `None` when it rejects it.
    spec fn accepts(&self, token: Seq<char>) -> Option<Seq<char>>;

    fn parse(&self, token: &str) -> (r: Result<String, String>)
        ensures
            r is Ok <==> self.accepts(token@) is Some,
            r matches Ok(v) ==> self.accepts(token@) == Some(v@),
    ;
}

/// Accepts every token and yields it unchanged.
pub struct StringArgument;

impl Parameter for StringArgument {
    open spec fn accepts(&self, token: Seq<char>) -> Option<Seq<char>> {
        Some(token)
    }

    fn parse(&self, input: &str) -> (r: Result<String, String>) {
        Ok(String::from_str(input))
    }
}

pub enum NodeType<P> {
    Literal,
    Parameter(Option<P>),
}

/// One node of the command grammar. Children are kept in registration order;
/// a child registered under an existing name replaces it in place.
pub struct CommandNode<P, F> {
    pub name: String,
    pub child: Vec<CommandNode<P, F>>,
    pub execute: Option<F>,
    pub node_type: NodeType<P>,
    pub truncation: bool,
}

/// What a dispatch has collected: the literal tokens matched, in order, and
/// the value recorded for each parameter name (the last one recorded wins).
pub struct ContextView {
    pub literals: Seq<Seq<char>>,
    pub params: Map<Seq<char>, Seq<char>>,
}

pub open spec fn empty_context() -> ContextView {
    ContextView { literals: seq![], params: Map::empty() }
}

pub open spec fn params_of(a: Seq<(String, Box<String>)>) -> Map<Seq<char>, Seq<char>>
    decreases a.len(),
{
    if a.len() == 0 {
        Map::empty()
    } else {
        params_of(a.drop_last()).insert(a.last().0@, (*a.last().1)@)
    }
}

pub open spec fn is_literal_named<P, F>(c: CommandNode<P, F>, tok: Seq<char>) -> bool {
    c.node_type is Literal && c.name@ == tok
}

pub open spec fn parameter_value<P: Parameter, F>(c: CommandNode<P, F>, tok: Seq<char>) -> Option<
    Seq<char>,
> {
    match c.node_type {
        NodeType::Parameter(Some(p)) => p.accepts(tok),
        _ => None,
    }
}

/// Index of the first literal child named `tok`, or `cs.len()`.
pub open spec fn first_literal<P, F>(cs: Seq<CommandNode<P, F>>, tok: Seq<char>) -> int
    decreases cs.len(),
{
    if cs.len() == 0 {
        0
    } else if is_literal_named(cs[0], tok) {
        0
    } else {
        1 + first_literal(cs.drop_first(), tok)
    }
}

/// Index of the first parameter child whose parser accepts `tok`, or `cs.len()`.
pub open spec fn first_accepting<P: Parameter, F>(cs: Seq<CommandNode<P, F>>, tok: Seq<char>) -> int
    decreases cs.len(),
{
    if cs.len() == 0 {
        0
    } else if parameter_value(cs[0], tok) is Some {
        0
    } else {
        1 + first_accepting(cs.drop_first(), tok)
    }
}

/// Index of the first child named `name`, or `cs.len()`.
pub open spec fn first_named<P, F>(cs: Seq<CommandNode<P, F>>, name: Seq<char>) -> int
    decreases cs.len(),
{
    if cs.len() == 0 {
        0
    } else if cs[0].name@ == name {
        0
    } else {
        1 + first_named(cs.drop_first(), name)
    }
}

/// The children after registering `c`: it replaces the child of the same name, or comes last.
pub open spec fn with_child<P, F>(cs: Seq<CommandNode<P, F>>, c: CommandNode<P, F>) -> Seq<
    CommandNode<P, F>,
> {
    let i = first_named(cs, c.name@);
    if i < cs.len() {
        cs.update(i, c)
    } else {
        cs.push(c)
    }
}

/// No two children share a name.
pub open spec fn names_unique<P, F>(cs: Seq<CommandNode<P, F>>) -> bool {
    forall|i: int, j: int| 0 <= i < cs.len() && 0 <= j < cs.len() && i != j ==> #[trigger] cs[i].name@ != #[trigger] cs[j].name@
}

/// Every node of a list of subtrees has uniquely named children.
pub open spec fn forest_wf<P, F>(cs: Seq<CommandNode<P, F>>) -> bool
    decreases cs,
{
    if cs.len() == 0 {
        true
    } else {
        forest_wf(cs.drop_last()) && names_unique(cs.last().child@) && forest_wf(cs.last().child@)
    }
}

/// Child names are unique at every level of the tree below `n`.
pub open spec fn node_wf<P, F>(n: CommandNode<P, F>) -> bool {
    names_unique(n.child@) && forest_wf(n.child@)
}

proof fn lemma_forest_wf<P, F>(cs: Seq<CommandNode<P, F>>)
    ensures
        forest_wf(cs) <==> (forall|i: int| 0 <= i < cs.len() ==> #[trigger] node_wf(cs[i])),
    decreases cs.len(),
{
    if cs.len() > 0 {
        lemma_forest_wf(cs.drop_last());
        assert forall|i: int| 0 <= i < cs.len() - 1 implies cs.drop_last()[i] == cs[i] by {}
        if forall|i: int| 0 <= i < cs.len() ==> #[trigger] node_wf(cs[i]) {
            assert(node_wf(cs[cs.len() - 1]));
            assert forall|i: int| 0 <= i < cs.drop_last().len() implies #[trigger] node_wf(cs.drop_last()[i]) by {
                assert(node_wf(cs[i]));
            }
        }
    }
}

proof fn lemma_first_named<P, F>(cs: Seq<CommandNode<P, F>>, name: Seq<char>)
    ensures
        0 <= first_named(cs, name) <= cs.len(),
        first_named(cs, name) < cs.len() ==> cs[first_named(cs, name)].name@ == name,
        first_named(cs, name) == cs.len() ==> forall|j: int| 0 <= j < cs.len() ==> cs[j].name@ != name,
    decreases cs.len(),
{
    if cs.len() > 0 && cs[0].name@ != name {
        lemma_first_named(cs.drop_first(), name);
        assert forall|j: int| 0 < j < cs.len() implies cs[j] == cs.drop_first()[j - 1] by {}
    }
}

proof fn lemma_with_child_wf<P, F>(cs: Seq<CommandNode<P, F>>, c: CommandNode<P, F>)
    requires
        names_unique(cs),
        forest_wf(cs),
        node_wf(c),
    ensures
        names_unique(with_child(cs, c)),
        forest_wf(with_child(cs, c)),
{
    lemma_first_named(cs, c.name@);
    lemma_forest_wf(cs);
    let ns = with_child(cs, c);
    let k = first_named(cs, c.name@);
    assert forall|i: int| 0 <= i < ns.len() implies #[trigger] node_wf(ns[i]) by {
        if i != k {
            assert(ns[i] == cs[i]);
        }
    }
    assert forall|i: int, j: int| 0 <= i < ns.len() && 0 <= j < ns.len() && i != j implies #[trigger] ns[i].name@
        != #[trigger] ns[j].name@ by {
        if i != k && j != k {
            assert(ns[i] == cs[i] && ns[j] == cs[j]);
        } else if i == k {
            assert(ns[j] == cs[j]);
            if k < cs.len() {
                assert(cs[k].name@ != cs[j].name@);
            }
        } else {
            assert(ns[i] == cs[i]);
            if k < cs.len() {
                assert(cs[k].name@ != cs[i].name@);
            }
        }
    }
    lemma_forest_wf(ns);
}

/// One token matched against the children of `node`: a literal child of that
/// name first, else the first parameter child whose parser accepts it.
pub open spec fn step<P: Parameter, F>(node: CommandNode<P, F>, tok: Seq<char>, ctx: ContextView) -> Option<
    (CommandNode<P, F>, ContextView),
> {
    let cs = node.child@;
    let li = first_literal(cs, tok);
    let pi = first_accepting(cs, tok);
    if li < cs.len() {
        Some((cs[li], ContextView { literals: ctx.literals.push(tok), params: ctx.params }))
    } else if pi < cs.len() {
        Some(
            (
                cs[pi],
                ContextView {
                    literals: ctx.literals,
                    params: ctx.params.insert(cs[pi].name@, parameter_value(cs[pi], tok)->0),
                },
            ),
        )
    } else {
        None
    }
}

/// Walks `toks` down from `node`. A truncating node, once reached, records the
/// remaining tokens joined by single spaces under its own name and ends the walk.
pub open spec fn walk<P: Parameter, F>(
    node: CommandNode<P, F>,
    toks: Seq<Seq<char>>,
    ctx: ContextView,
) -> Option<(CommandNode<P, F>, ContextView)>
    decreases toks.len(),
{
    if toks.len() == 0 {
        Some((node, ctx))
    } else {
        match step(node, toks[0], ctx) {
            None => None,
            Some((next, c2)) => {
                if next.truncation {
                    Some(
                        (
                            next,
                            ContextView {
                                literals: c2.literals,
                                params: c2.params.insert(
                                    next.name@,
                                    join_words(toks.drop_first()),
                                ),
                            },
                        ),
                    )
                } else {
                    walk(next, toks.drop_first(), c2)
                }
            },
        }
    }
}

/// The callback and context that `input` selects under `root`, if any.
pub open spec fn dispatch<P: Parameter, F>(root: CommandNode<P, F>, input: Seq<char>) -> Option<
    (F, ContextView),
> {
    if !starts_with(input, root.name@) {
        None
    } else {
        match walk(root, words(input.subrange(root.name@.len() as int, input.len() as int)), empty_context()) {
            Some((n, c)) => match n.execute {
                Some(f) => Some((f, c)),
                None => None,
            },
            None => None,
        }
    }
}

/// When the walk, having matched the first `i` tokens without entering a
/// truncating node, enters one on token `i`, the rest of the tokens joined by
/// single spaces is recorded under that node's name and the walk ends there.
pub proof fn lemma_truncation_captures_rest<P: Parameter, F>(
    node: CommandNode<P, F>,
    toks: Seq<Seq<char>>,
    ctx: ContextView,
    i: int,
    mid: (CommandNode<P, F>, ContextView),
)
    requires
        0 <= i < toks.len(),
        walk(node, toks.take(i), ctx) == Some(mid),
        !mid.0.truncation,
        step(mid.0, toks[i], mid.1) matches Some((n, _)) && n.truncation,
    ensures
        ({
            let (n, c2) = step(mid.0, toks[i], mid.1)->0;
            walk(node, toks, ctx) == Some(
                (
                    n,
                    ContextView {
                        literals: c2.literals,
                        params: c2.params.insert(n.name@, join_words(toks.subrange(i + 1, toks.len() as int))),
                    },
                ),
            )
        }),
    decreases i,
{
    if i == 0 {
        assert(toks.take(0) =~= Seq::<Seq<char>>::empty());
        assert(toks.drop_first() =~= toks.subrange(1, toks.len() as int));
    } else {
        let t = toks.take(i);
        assert(t[0] == toks[0]);
        let (n1, c1) = step(node, toks[0], ctx)->0;
        assert(!n1.truncation);
        let rest = toks.drop_first();
        assert(t.drop_first() =~= rest.take(i - 1));
        assert(rest[i - 1] == toks[i]);
        lemma_truncation_captures_rest(n1, rest, c1, i - 1, mid);
        assert(rest.subrange(i, rest.len() as int) =~= toks.subrange(i + 1, toks.len() as int));
    }
}

impl<P, F> Default for CommandNode<P, F> {
    /// A literal node named "default", without children or callback.
    fn default() -> (r: Self)
        ensures
            r.name@ == "default"@,
            r.child@.len() == 0,
            r.execute is None,
            r.node_type is Literal,
            !r.truncation,
    {
        CommandNode::new("default")
    }
}

impl<P, F> CommandNode<P, F> {
    pub fn new(name: &str) -> (r: Self)
        ensures
            r.name@ == name@,
            r.child@.len() == 0,
            node_wf(r),
            r.execute is None,
            r.node_type is Literal,
            !r.truncation,
    {
        CommandNode {
            name: String::from_str(name),
            child: Vec::new(),
            execute: None,
            node_type: NodeType::Literal,
            truncation: false,
        }
    }

    /// Adds `child` below this node, replacing a child of the same name.
    pub fn then(self, child: CommandNode<P, F>) -> (r: Self)
        ensures
            r.child@ == with_child(self.child@, child),
            node_wf(self) && node_wf(child) ==> node_wf(r),
            r.name == self.name,
            r.execute == self.execute,
            r.node_type == self.node_type,
            r.truncation == self.truncation,
    {
        let ghost (cs, c) = (self.child@, child);
        let mut node = self;
        insert_child(&mut node.child, child);
        proof {
            if names_unique(cs) && forest_wf(cs) && node_wf(c) {
                lemma_with_child_wf(cs, c);
            }
        }
        node
    }

    pub fn execute(self, f: F) -> (r: Self)
        ensures
            r.execute == Some(f),
            r.name == self.name,
            r.child == self.child,
            r.node_type == self.node_type,
            r.truncation == self.truncation,
    {
        let mut node = self;
        node.execute = Some(f);
        node
    }

    pub fn set_truncate(self) -> (r: Self)
        ensures
            r.truncation,
            r.name == self.name,
            r.child == self.child,
            r.execute == self.execute,
            r.node_type == self.node_type,
    {
        let mut node = self;
        node.truncation = true;
        node
    }

    pub fn argument(self, arg: P) -> (r: Self)
        ensures
            r.node_type == NodeType::Parameter(Some(arg)),
            r.name == self.name,
            r.child == self.child,
            r.execute == self.execute,
            r.truncation == self.truncation,
    {
        let mut node = self;
        node.node_type = NodeType::Parameter(Some(arg));
        node
    }
}

fn insert_child<P, F>(cs: &mut Vec<CommandNode<P, F>>, c: CommandNode<P, F>)
    ensures
        final(cs)@ == with_child(old(cs)@, c),
{
    let n = cs.len();
    let mut i: usize = 0;
    assert(cs@.subrange(0, n as int) =~= cs@);
    while i < n && !string_eq(&cs[i].name, &c.name)
        invariant
            n == cs@.len(),
            i <= n,
            first_named(cs@, c.name@) == i + first_named(cs@.subrange(i as int, n as int), c.name@),
        decreases n - i,
    {
        assert(cs@.subrange(i as int, n as int).drop_first() =~= cs@.subrange(i + 1, n as int));
        i = i + 1;
    }
    if i < n {
        cs.set(i, c);
    } else {
        cs.push(c);
    }
}


/// Per-dispatch record of matched literal tokens and parsed parameter values.
pub struct CommandContext {
    ctx: Vec<String>,
    args: Vec<(String, Box<String>)>,
}

impl View for CommandContext {
    type V = ContextView;

    closed spec fn view(&self) -> ContextView {
        ContextView { literals: views(self.ctx@), params: params_of(self.args@) }
    }
}

impl CommandContext {
    pub fn default() -> (r: Self)
        ensures
            r@ == empty_context(),
    {
        let r = CommandContext { ctx: Vec::new(), args: Vec::new() };
        assert(r@.literals =~= empty_context().literals);
        r
    }

    /// Records `arg` under `name`, replacing an earlier value of that name.
    pub fn add_parm(&mut self, name: &str, arg: Box<String>)
        ensures
            final(self)@ == (ContextView {
                literals: old(self)@.literals,
                params: old(self)@.params.insert(name@, (*arg)@),
            }),
    {
        let entry = (String::from_str(name), arg);
        self.args.push(entry);
        assert(self.args@.drop_last() =~= old(self).args@);
    }

    fn add_literal(&mut self, tok: String)
        ensures
            final(self)@ == (ContextView {
                literals: old(self)@.literals.push(tok@),
                params: old(self)@.params,
            }),
    {
        self.ctx.push(tok);
        assert(views(self.ctx@) =~= views(old(self).ctx@).push(tok@));
    }

    /// The value recorded for `name`, if any.
    pub fn get_parm(&self, name: &str) -> (r: Option<&Box<String>>)
        ensures
            r is Some <==> self@.params.contains_key(name@),
            r matches Some(v) ==> self@.params.contains_key(name@) && (**v)@ == self@.params[name@],
    {
        let key = String::from_str(name);
        let mut j: usize = self.args.len();
        assert(self.args@.take(j as int) =~= self.args@);
        while j > 0
            invariant
                key@ == name@,
                j <= self.args@.len(),
                params_of(self.args@).contains_key(name@) <==> params_of(
                    self.args@.take(j as int),
                ).contains_key(name@),
                params_of(self.args@).contains_key(name@) ==> params_of(self.args@)[name@]
                    == params_of(self.args@.take(j as int))[name@],
            decreases j,
        {
            assert(self.args@.take(j as int).drop_last() =~= self.args@.take(j - 1));
            assert(self.args@.take(j as int).last() == self.args@[j - 1]);
            if string_eq(&self.args[j - 1].0, &key) {
                assert(params_of(self.args@.take(j as int)) == params_of(
                    self.args@.take(j - 1),
                ).insert(self.args@[j - 1].0@, (*self.args@[j - 1].1)@));
                assert(params_of(self.args@.take(j as int)).contains_key(name@));
                return Some(&self.args[j - 1].1);
            }
            j = j - 1;
        }
        None
    }
}

fn literal_child<P, F>(node: &CommandNode<P, F>, tok: &String) -> (r: usize)
    ensures
        r == first_literal(node.child@, tok@),
{
    let cs = &node.child;
    let n = cs.len();
    let mut i: usize = 0;
    assert(cs@.subrange(0, n as int) =~= cs@);
    while i < n
        invariant
            n == cs@.len(),
            i <= n,
            cs@ == node.child@,
            first_literal(cs@, tok@) == i + first_literal(cs@.subrange(i as int, n as int), tok@),
        decreases n - i,
    {
        let is_literal = match cs[i].node_type {
            NodeType::Literal => true,
            _ => false,
        };
        if is_literal && string_eq(&cs[i].name, tok) {
            assert(is_literal_named(cs@[i as int], tok@));
            assert(cs@.subrange(i as int, n as int)[0] == cs@[i as int]);
            assert(first_literal(cs@.subrange(i as int, n as int), tok@) == 0);
            return i;
        }
        assert(cs@.subrange(i as int, n as int).drop_first() =~= cs@.subrange(i + 1, n as int));
        i = i + 1;
    }
    i
}

fn accepting_child<P: Parameter, F>(node: &CommandNode<P, F>, tok: &String) -> (r: (usize, String))
    ensures
        r.0 == first_accepting(node.child@, tok@),
        r.0 < node.child@.len() ==> parameter_value(node.child@[r.0 as int], tok@) == Some(r.1@),
{
    let cs = &node.child;
    let n = cs.len();
    let mut i: usize = 0;
    assert(cs@.subrange(0, n as int) =~= cs@);
    while i < n
        invariant
            n == cs@.len(),
            i <= n,
            cs@ == node.child@,
            first_accepting(cs@, tok@) == i + first_accepting(cs@.subrange(i as int, n as int), tok@),
        decreases n - i,
    {
        match &cs[i].node_type {
            NodeType::Parameter(Some(p)) => {
                match p.parse(tok.as_str()) {
                    Ok(v) => {
                        assert(parameter_value(cs@[i as int], tok@) == Some(v@));
                        assert(cs@.subrange(i as int, n as int)[0] == cs@[i as int]);
                        assert(first_accepting(cs@.subrange(i as int, n as int), tok@) == 0);
                        return (i, v);
                    },
                    Err(_) => {},
                }
            },
            _ => {},
        }
        assert(cs@.subrange(i as int, n as int).drop_first() =~= cs@.subrange(i + 1, n as int));
        i = i + 1;
    }
    (i, String::new())
}

/// The trie of commands under a prefix (the root's name).
pub struct CommandDispatcher<P, F> {
    root: CommandNode<P, F>,
}

impl<P: Parameter, F> CommandDispatcher<P, F> {
    pub closed spec fn root(&self) -> CommandNode<P, F> {
        self.root
    }

    /// Child names are unique at every level of the trie.
    pub open spec fn wf(&self) -> bool {
        node_wf(self.root())
    }

    pub fn new(prefix: &str) -> (r: Self)
        ensures
            r.root().name@ == prefix@,
            r.root().child@.len() == 0,
            r.wf(),
            r.root().execute is None,
            !r.root().truncation,
    {
        CommandDispatcher { root: CommandNode::new(prefix) }
    }

    /// Adds a command below the root, replacing one of the same name.
    pub fn register(&mut self, child: CommandNode<P, F>)
        ensures
            final(self).root().child@ == with_child(old(self).root().child@, child),
            final(self).root().name == old(self).root().name,
            final(self).root().execute == old(self).root().execute,
            final(self).root().truncation == old(self).root().truncation,
            final(self).root().node_type == old(self).root().node_type,
            old(self).wf() && node_wf(child) ==> final(self).wf(),
    {
        let ghost cs = self.root.child@;
        insert_child(&mut self.root.child, child);
        proof {
            if names_unique(cs) && forest_wf(cs) && node_wf(child) {
                lemma_with_child_wf(cs, child);
            }
        }
    }

    /// The callback selected by `input`, with the context the walk collected.
    /// Input that does not begin with the prefix is no command.
    pub fn run(&self, input: String) -> (r: Option<(&F, CommandContext)>)
        requires
            self.wf(),
        ensures
            !starts_with(input@, self.root().name@) ==> r is None,
            match dispatch(self.root(), input@) {
                None => r is None,
                Some((f, c)) => r matches Some((g, ctx)) && *g == f && ctx@ == c,
            },
    {
        let rest = match strip_prefix(input.as_str(), self.root.name.as_str()) {
            Some(rest) => rest,
            None => {
                return None;
            },
        };
        let toks = split_words(rest.as_str());
        assert(rest@ == input@.subrange(self.root.name@.len() as int, input@.len() as int));
        let n = toks.len();
        let ghost wt = views(toks@);
        let ghost target = walk(self.root, wt, empty_context());
        assert(starts_with(input@, self.root.name@));
        assert(wt == words(input@.subrange(self.root.name@.len() as int, input@.len() as int)));
        let mut ctx = CommandContext::default();
        let mut cur: &CommandNode<P, F> = &self.root;
        let mut i: usize = 0;
        let mut stopped = false;
        assert(wt.subrange(0, n as int) =~= wt);
        while i < n && !stopped
            invariant
                n == toks@.len(),
                wt == views(toks@),
                starts_with(input@, self.root.name@),
                wt == words(input@.subrange(self.root.name@.len() as int, input@.len() as int)),
                i <= n,
                target == walk(self.root, wt, empty_context()),
                stopped ==> target == Some((*cur, ctx@)),
                !stopped ==> target == walk(*cur, wt.subrange(i as int, n as int), ctx@),
            decreases (n - i) as int + if stopped { 0int } else { 1int },
        {
            let ghost rem = wt.subrange(i as int, n as int);
            assert(rem[0] == toks@[i as int]@);
            assert(rem.drop_first() =~= wt.subrange(i + 1, n as int));
            let tok = &toks[i];
            let li = literal_child(cur, tok);
            if li < cur.child.len() {
                ctx.add_literal(tok.clone());
                cur = &cur.child[li];
            } else {
                let (pi, value) = accepting_child(cur, tok);
                if pi < cur.child.len() {
                    let next = &cur.child[pi];
                    ctx.add_parm(next.name.as_str(), Box::new(value));
                    cur = next;
                } else {
                    assert(step(*cur, rem[0], ctx@) is None);
                    assert(target is None);
                    return None;
                }
            }
            if cur.truncation {
                let joined = if i + 1 < n {
                    join_from(&toks, i + 1)
                } else {
                    assert(wt.subrange(i + 1, n as int) =~= seq![]);
                    String::new()
                };
                assert(wt.subrange(i + 1, n as int) =~= views(toks@).subrange(i + 1, n as int));
                ctx.add_parm(cur.name.as_str(), Box::new(joined));
                stopped = true;
            } else {
                i = i + 1;
            }
        }
        if !stopped {
            assert(wt.subrange(i as int, n as int) =~= seq![]);
        }
        match &cur.execute {
            Some(f) => Some((f, ctx)),
            None => None,
        }
    }
}

} // verus!
