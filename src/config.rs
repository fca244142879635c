use vstd::prelude::*;
use vstd::string::*;

use crate::text::{starts_with, string_eq, strip_prefix, views};

verus! {

/// A hierarchical document: a leaf value, or a table of named children in order.
pub enum ConfigNode<V> {
    Leaf(V),
    Table(Vec<(String, ConfigNode<V>)>),
}

/// `key` under the namespace `prefix`, joined by a dot.
pub open spec fn dotted(prefix: Seq<char>, key: Seq<char>) -> Seq<char> {
    if prefix.len() == 0 {
        key
    } else {
        prefix + seq!['.'] + key
    }
}

/// The leaves below a list of named children, in document order, each under
/// its dot-joined path.
pub open spec fn forest_leaves<V>(es: Seq<(String, ConfigNode<V>)>, prefix: Seq<char>) -> Seq<
    (Seq<char>, V),
>
    decreases es,
{
    if es.len() == 0 {
        seq![]
    } else {
        let last = es.last();
        let rest = forest_leaves(es.drop_last(), prefix);
        match last.1 {
            ConfigNode::Leaf(v) => rest.push((dotted(prefix, last.0@), v)),
            ConfigNode::Table(sub) => rest + forest_leaves(sub@, dotted(prefix, last.0@)),
        }
    }
}

/// The flat entries a document stands for. A bare value stands under the empty key.
pub open spec fn doc_leaves<V>(doc: ConfigNode<V>) -> Seq<(Seq<char>, V)> {
    match doc {
        ConfigNode::Leaf(v) => seq![(seq![], v)],
        ConfigNode::Table(es) => forest_leaves(es@, seq![]),
    }
}

/// The parts of `s` between dots, as `str::split('.')` gives them.
pub open spec fn dot_parts(s: Seq<char>) -> Seq<Seq<char>>
    decreases s.len(),
{
    if s.len() == 0 {
        seq![seq![]]
    } else {
        let w = dot_parts(s.drop_last());
        if s.last() == '.' {
            w.push(seq![])
        } else {
            w.drop_last().push(w.last().push(s.last()))
        }
    }
}

/// Index of the first entry named `k`, or `es.len()`.
pub open spec fn key_index<A>(es: Seq<(Seq<char>, A)>, k: Seq<char>) -> int
    decreases es.len(),
{
    if es.len() == 0 {
        0
    } else if es[0].0 == k {
        0
    } else {
        1 + key_index(es.drop_first(), k)
    }
}

/// Index of the first child named `k`, or `es.len()`.
pub open spec fn entry_index<V>(es: Seq<(String, ConfigNode<V>)>, k: Seq<char>) -> int
    decreases es.len(),
{
    if es.len() == 0 {
        0
    } else if es[0].0@ == k {
        0
    } else {
        1 + entry_index(es.drop_first(), k)
    }
}

/// The entries after setting `k` to `v`: an entry named `k` is replaced in
/// place, else the new entry comes last.
pub open spec fn set_entry<A>(es: Seq<(Seq<char>, A)>, k: Seq<char>, v: A) -> Seq<(Seq<char>, A)> {
    let i = key_index(es, k);
    if i < es.len() {
        es.update(i, (k, v))
    } else {
        es.push((k, v))
    }
}

/// `es` after setting each of `list`, in order.
pub open spec fn set_all<A>(es: Seq<(Seq<char>, A)>, list: Seq<(Seq<char>, A)>) -> Seq<(Seq<char>, A)>
    decreases list.len(),
{
    if list.len() == 0 {
        es
    } else {
        let before = set_all(es, list.drop_last());
        set_entry(before, list.last().0, list.last().1)
    }
}

/// The node reached from `n` along `path`.
pub open spec fn node_at<V>(n: ConfigNode<V>, path: Seq<Seq<char>>) -> Option<ConfigNode<V>>
    decreases path.len(),
{
    if path.len() == 0 {
        Some(n)
    } else {
        match n {
            ConfigNode::Leaf(_) => None,
            ConfigNode::Table(es) => {
                let i = entry_index(es@, path[0]);
                if i < es@.len() {
                    node_at(es@[i].1, path.drop_first())
                } else {
                    None
                }
            },
        }
    }
}

/// The leaf value at `path`, if a leaf stands there.
pub open spec fn leaf_at<V>(n: ConfigNode<V>, path: Seq<Seq<char>>) -> Option<V> {
    match node_at(n, path) {
        Some(ConfigNode::Leaf(v)) => Some(v),
        _ => None,
    }
}

pub open spec fn is_prefix(a: Seq<Seq<char>>, b: Seq<Seq<char>>) -> bool {
    a.len() <= b.len() && b.take(a.len() as int) == a
}

pub open spec fn related(a: Seq<Seq<char>>, b: Seq<Seq<char>>) -> bool {
    is_prefix(a, b) || is_prefix(b, a)
}

/// No leaf stands on the way to `p` (at `p` itself one may).
pub open spec fn path_open<V>(n: ConfigNode<V>, p: Seq<Seq<char>>) -> bool {
    forall|k: int| 0 <= k < p.len() ==> leaf_at(n, #[trigger] p.take(k)) is None
}

/// The entries below namespace `prefix` (all entries for the empty
/// namespace), each with the dot-separated path of the rest of its key.
pub open spec fn children_of<A>(es: Seq<(Seq<char>, A)>, prefix: Seq<char>) -> Seq<
    (Seq<Seq<char>>, A),
>
    decreases es.len(),
{
    if es.len() == 0 {
        seq![]
    } else {
        let rest = children_of(es.drop_last(), prefix);
        let (k, v) = es.last();
        if starts_with(k, prefix) {
            rest.push((dot_parts(k.subrange(prefix.len() as int, k.len() as int)), v))
        } else {
            rest
        }
    }
}

/// No path is a prefix of another (nor equal to it).
pub open spec fn prefix_free<A>(cs: Seq<(Seq<Seq<char>>, A)>) -> bool {
    forall|i: int, j: int|
        0 <= i < cs.len() && 0 <= j < cs.len() && i != j ==> !is_prefix(
            #[trigger] cs[i].0,
            #[trigger] cs[j].0,
        )
}

/// No two children share a name.
pub open spec fn names_distinct<W>(es: Seq<(String, ConfigNode<W>)>) -> bool {
    forall|i: int, j: int| 0 <= i < es.len() && 0 <= j < es.len() && i != j ==> #[trigger] es[i].0@ != #[trigger] es[j].0@
}

/// A child is a leaf, or a non-empty table naming its children uniquely,
/// all of them such children again.
pub open spec fn child_ok<W>(c: ConfigNode<W>) -> bool {
    match c {
        ConfigNode::Leaf(_) => true,
        ConfigNode::Table(sub) => sub@.len() > 0 && names_distinct(sub@) && forest_ok(sub@),
    }
}

/// Every child in the list, and every child below it, is as `child_ok` says.
pub open spec fn forest_ok<W>(es: Seq<(String, ConfigNode<W>)>) -> bool
    decreases es,
{
    if es.len() == 0 {
        true
    } else {
        forest_ok(es.drop_last()) && match es.last().1 {
            ConfigNode::Leaf(_) => true,
            ConfigNode::Table(sub) => sub@.len() > 0 && names_distinct(sub@) && forest_ok(sub@),
        }
    }
}

/// Child names are unique in every table of the document, and no table but
/// the top one is empty.
pub open spec fn tree_ok<W>(n: ConfigNode<W>) -> bool {
    match n {
        ConfigNode::Leaf(_) => true,
        ConfigNode::Table(es) => names_distinct(es@) && forest_ok(es@),
    }
}

/// Every leaf of `t` is the value of one of the given entries, at its path.
pub open spec fn leaves_from<V>(t: ConfigNode<&V>, cs: Seq<(Seq<Seq<char>>, V)>) -> bool {
    forall|q: Seq<Seq<char>>|
        #[trigger] leaf_at(t, q) is Some ==> exists|i: int|
            0 <= i < cs.len() && #[trigger] cs[i].0 == q && *leaf_at(t, q)->0 == cs[i].1
}

proof fn lemma_forest_ok<W>(es: Seq<(String, ConfigNode<W>)>)
    ensures
        forest_ok(es) <==> (forall|i: int| 0 <= i < es.len() ==> #[trigger] child_ok(es[i].1)),
    decreases es.len(),
{
    if es.len() > 0 {
        lemma_forest_ok(es.drop_last());
        assert forall|i: int| 0 <= i < es.len() - 1 implies es.drop_last()[i] == es[i] by {}
        if forall|i: int| 0 <= i < es.len() ==> #[trigger] child_ok(es[i].1) {
            assert(child_ok(es[es.len() - 1].1));
            assert forall|i: int| 0 <= i < es.drop_last().len() implies #[trigger] child_ok(es.drop_last()[i].1) by {
                assert(child_ok(es[i].1));
            }
        }
    }
}

proof fn lemma_replace_ok<W>(
    old_es: Seq<(String, ConfigNode<W>)>,
    new_es: Seq<(String, ConfigNode<W>)>,
    i: int,
    k0: Seq<char>,
)
    requires
        names_distinct(old_es),
        forest_ok(old_es),
        0 <= i <= old_es.len(),
        i < old_es.len() ==> new_es.len() == old_es.len() && old_es[i].0@ == k0,
        i == old_es.len() ==> new_es.len() == old_es.len() + 1 && forall|j: int|
            0 <= j < old_es.len() ==> old_es[j].0@ != k0,
        new_es[i].0@ == k0,
        forall|j: int| 0 <= j < old_es.len() && j != i ==> new_es[j] == old_es[j],
        child_ok(new_es[i].1),
    ensures
        names_distinct(new_es),
        forest_ok(new_es),
{
    lemma_forest_ok(old_es);
    assert forall|j: int| 0 <= j < new_es.len() implies #[trigger] child_ok(new_es[j].1) by {
        if j != i {
            assert(new_es[j] == old_es[j]);
        }
    }
    assert forall|a: int, b: int| 0 <= a < new_es.len() && 0 <= b < new_es.len() && a != b implies #[trigger] new_es[a].0@
        != #[trigger] new_es[b].0@ by {
        if a != i && b != i {
            assert(new_es[a] == old_es[a] && new_es[b] == old_es[b]);
        } else if a == i {
            assert(new_es[b] == old_es[b]);
            if i < old_es.len() {
                assert(old_es[i].0@ != old_es[b].0@);
            }
        } else {
            assert(new_es[a] == old_es[a]);
            if i < old_es.len() {
                assert(old_es[i].0@ != old_es[a].0@);
            }
        }
    }
    lemma_forest_ok(new_es);
}

/// Below a leaf nothing stands.
proof fn lemma_nothing_below_leaf<V>(n: ConfigNode<V>, p: Seq<Seq<char>>, q: Seq<Seq<char>>)
    requires
        leaf_at(n, p) is Some,
        is_prefix(p, q),
        p.len() < q.len(),
    ensures
        leaf_at(n, q) is None,
    decreases p.len(),
{
    if p.len() > 0 {
        assert(q[0] == q.take(p.len() as int)[0]);
        match n {
            ConfigNode::Table(es) => {
                let i = entry_index(es@, p[0]);
                assert(p.drop_first().len() <= q.drop_first().len());
                assert(q.drop_first().take(p.drop_first().len() as int) =~= p.drop_first()) by {
                    assert forall|k: int| 0 <= k < p.len() - 1 implies q.drop_first()[k] == p.drop_first()[k] by {
                        assert(q.take(p.len() as int)[k + 1] == p[k + 1]);
                    }
                }
                lemma_nothing_below_leaf(es@[i].1, p.drop_first(), q.drop_first());
            },
            ConfigNode::Leaf(_) => {},
        }
    }
}

proof fn lemma_insert_sound<V>(
    acc: ConfigNode<&V>,
    acc2: ConfigNode<&V>,
    cs: Seq<(Seq<Seq<char>>, V)>,
    p: Seq<Seq<char>>,
    v: &V,
)
    requires
        leaves_from(acc, cs),
        path_open(acc, p) ==> leaf_at(acc2, p) == Some(v),
        forall|q: Seq<Seq<char>>| !related(p, q) ==> #[trigger] leaf_at(acc2, q) == leaf_at(acc, q),
        !path_open(acc, p) ==> forall|q: Seq<Seq<char>>| #[trigger] leaf_at(acc2, q) == leaf_at(acc, q),
    ensures
        leaves_from(acc2, cs.push((p, *v))),
{
    let ncs = cs.push((p, *v));
    assert forall|q: Seq<Seq<char>>| #[trigger] leaf_at(acc2, q) is Some implies exists|i: int|
        0 <= i < ncs.len() && #[trigger] ncs[i].0 == q && *leaf_at(acc2, q)->0 == ncs[i].1 by {
        if !path_open(acc, p) || !related(p, q) {
            assert(leaf_at(acc2, q) == leaf_at(acc, q));
            let i = choose|i: int| 0 <= i < cs.len() && #[trigger] cs[i].0 == q && *leaf_at(acc, q)->0 == cs[i].1;
            assert(ncs[i] == cs[i]);
        } else if q =~= p {
            assert(ncs[cs.len() as int].0 == q);
        } else if is_prefix(q, p) {
            lemma_leaf_path_open(acc2, p);
            assert(p.take(q.len() as int) == q);
            assert(q.len() < p.len()) by {
                if q.len() == p.len() {
                    assert(q =~= p);
                }
            }
            assert(leaf_at(acc2, p.take(q.len() as int)) is None);
        } else {
            assert(is_prefix(p, q));
            assert(p.len() < q.len()) by {
                if q.len() == p.len() {
                    assert(q =~= p);
                }
            }
            lemma_nothing_below_leaf(acc2, p, q);
        }
    }
}

proof fn lemma_entry_index<V>(es: Seq<(String, ConfigNode<V>)>, k: Seq<char>)
    ensures
        0 <= entry_index(es, k) <= es.len(),
        entry_index(es, k) < es.len() ==> es[entry_index(es, k)].0@ == k,
        forall|j: int| 0 <= j < entry_index(es, k) ==> es[j].0@ != k,
    decreases es.len(),
{
    if es.len() > 0 && es[0].0@ != k {
        lemma_entry_index(es.drop_first(), k);
        assert forall|j: int| 0 <= j < entry_index(es, k) implies es[j].0@ != k by {
            if j > 0 {
                assert(es[j] == es.drop_first()[j - 1]);
            }
        }
    }
}

proof fn lemma_entry_index_unique<V>(es: Seq<(String, ConfigNode<V>)>, k: Seq<char>, i: int)
    requires
        0 <= i <= es.len(),
        i < es.len() ==> es[i].0@ == k,
        forall|j: int| 0 <= j < i ==> es[j].0@ != k,
    ensures
        entry_index(es, k) == i,
{
    lemma_entry_index(es, k);
    let e = entry_index(es, k);
    if e < i {
        assert(es[e].0@ != k);
    } else if i < e {
        assert(es[i].0@ != k);
    }
}

/// Along a path to a leaf, only tables stand.
proof fn lemma_leaf_path_open<V>(n: ConfigNode<V>, p: Seq<Seq<char>>)
    requires
        leaf_at(n, p) is Some,
    ensures
        path_open(n, p),
    decreases p.len(),
{
    assert forall|k: int| 0 <= k < p.len() implies leaf_at(n, #[trigger] p.take(k)) is None by {
        if k > 0 {
            match n {
                ConfigNode::Table(es) => {
                    let i = entry_index(es@, p[0]);
                    lemma_leaf_path_open(es@[i].1, p.drop_first());
                    assert(p.take(k).drop_first() =~= p.drop_first().take(k - 1));
                    assert(p.drop_first().take(k - 1) == p.drop_first().take(k - 1));
                },
                ConfigNode::Leaf(_) => {},
            }
        }
    }
}

proof fn lemma_sibling<W>(
    old_es: Seq<(String, ConfigNode<W>)>,
    new_es: Seq<(String, ConfigNode<W>)>,
    i: int,
    k0: Seq<char>,
    q0: Seq<char>,
)
    requires
        0 <= i <= old_es.len(),
        i < old_es.len() ==> new_es.len() == old_es.len() && old_es[i].0@ == k0,
        i == old_es.len() ==> new_es.len() == old_es.len() + 1,
        new_es[i].0@ == k0,
        forall|j: int| 0 <= j < old_es.len() && j != i ==> new_es[j] == old_es[j],
        q0 != k0,
    ensures
        entry_index(new_es, q0) < new_es.len() <==> entry_index(old_es, q0) < old_es.len(),
        entry_index(old_es, q0) < old_es.len() ==> entry_index(new_es, q0) == entry_index(
            old_es,
            q0,
        ) && new_es[entry_index(new_es, q0)] == old_es[entry_index(old_es, q0)],
{
    lemma_entry_index(old_es, q0);
    let e = entry_index(old_es, q0);
    if e < old_es.len() {
        assert forall|j: int| 0 <= j < e implies new_es[j].0@ != q0 by {
            if j != i {
                assert(new_es[j] == old_es[j]);
            }
        }
        lemma_entry_index_unique(new_es, q0, e);
    } else {
        assert forall|j: int| 0 <= j < new_es.len() implies new_es[j].0@ != q0 by {
            if j != i {
                assert(new_es[j] == old_es[j]);
            }
        }
        lemma_entry_index_unique(new_es, q0, new_es.len() as int);
    }
}

/// Below a child named `k0` the table holds `child` (an absent child reads as an empty table).
proof fn lemma_lookup_below<W>(node: ConfigNode<W>, i: int, k0: Seq<char>, child: ConfigNode<W>, q: Seq<Seq<char>>)
    requires
        node is Table,
        entry_index(node->Table_0@, k0) == i,
        0 <= i <= node->Table_0@.len(),
        i < node->Table_0@.len() ==> node->Table_0@[i].1 == child,
        i == node->Table_0@.len() ==> child is Table && child->Table_0@.len() == 0,
        q.len() > 0,
        q[0] == k0,
    ensures
        leaf_at(node, q) == leaf_at(child, q.drop_first()),
{
    let q1 = q.drop_first();
    if i == node->Table_0@.len() && q1.len() > 0 {
        assert(entry_index(child->Table_0@, q1[0]) == 0);
    }
}

/// Children named otherwise than `k0` are untouched.
proof fn lemma_lookup_beside<W>(
    old_node: ConfigNode<W>,
    new_node: ConfigNode<W>,
    i: int,
    k0: Seq<char>,
    q: Seq<Seq<char>>,
)
    requires
        old_node is Table,
        new_node is Table,
        0 <= i <= old_node->Table_0@.len(),
        i < old_node->Table_0@.len() ==> new_node->Table_0@.len() == old_node->Table_0@.len()
            && old_node->Table_0@[i].0@ == k0,
        i == old_node->Table_0@.len() ==> new_node->Table_0@.len() == old_node->Table_0@.len() + 1,
        new_node->Table_0@[i].0@ == k0,
        forall|j: int|
            0 <= j < old_node->Table_0@.len() && j != i ==> new_node->Table_0@[j]
                == old_node->Table_0@[j],
        q.len() > 0,
        q[0] != k0,
    ensures
        leaf_at(new_node, q) == leaf_at(old_node, q),
{
    lemma_sibling(old_node->Table_0@, new_node->Table_0@, i, k0, q[0]);
}

proof fn lemma_open_below<W>(node: ConfigNode<W>, child: ConfigNode<W>, p: Seq<Seq<char>>)
    requires
        node is Table,
        p.len() > 0,
        forall|q: Seq<Seq<char>>|
            q.len() > 0 && q[0] == p[0] ==> #[trigger] leaf_at(node, q) == leaf_at(child, q.drop_first()),
    ensures
        path_open(node, p) <==> path_open(child, p.drop_first()),
{
    let pp = p.drop_first();
    assert forall|k: int| 0 <= k < pp.len() implies #[trigger] p.take(k + 1).drop_first() == pp.take(k)
        && p.take(k + 1)[0] == p[0] by {
        assert(p.take(k + 1).drop_first() =~= pp.take(k));
    }
    if path_open(node, p) {
        assert forall|k: int| 0 <= k < pp.len() implies leaf_at(child, #[trigger] pp.take(k)) is None by {
            assert(leaf_at(node, p.take(k + 1)) is None);
        }
    }
    if path_open(child, pp) {
        assert forall|k: int| 0 <= k < p.len() implies leaf_at(node, #[trigger] p.take(k)) is None by {
            if k == 0 {
                assert(p.take(0) =~= Seq::<Seq<char>>::empty());
            } else {
                assert(p.take(k).drop_first() =~= pp.take(k - 1));
                assert(leaf_at(child, pp.take(k - 1)) is None);
            }
        }
    }
}

proof fn lemma_unrelated_below(p: Seq<Seq<char>>, q: Seq<Seq<char>>)
    requires
        !related(p, q),
    ensures
        q.len() > 0,
        p.len() > 0 && q[0] == p[0] ==> !related(p.drop_first(), q.drop_first()),
{
    if q.len() == 0 {
        assert(p.take(0) =~= q);
    } else if p.len() > 0 && q[0] == p[0] {
        let (p1, q1) = (p.drop_first(), q.drop_first());
        if is_prefix(p1, q1) {
            assert forall|k: int| 0 <= k < p.len() implies q[k] == p[k] by {
                if k > 0 {
                    assert(q[k] == q1[k - 1]);
                    assert(q1.take(p1.len() as int)[k - 1] == p1[k - 1]);
                }
            }
            assert(q.take(p.len() as int) =~= p);
        }
        if is_prefix(q1, p1) {
            assert forall|k: int| 0 <= k < q.len() implies p[k] == q[k] by {
                if k > 0 {
                    assert(p[k] == p1[k - 1]);
                    assert(p1.take(q1.len() as int)[k - 1] == q1[k - 1]);
                }
            }
            assert(p.take(q.len() as int) =~= q);
        }
    }
}

/// Sets the leaf at `parts[from..]` below `node` to `v`, creating the tables
/// on the way. Where a leaf already stands on the way, nothing changes.
#[verifier::rlimit(30)]
fn insert_path<W>(node: ConfigNode<W>, parts: &Vec<String>, from: usize, v: W) -> (r: ConfigNode<W>)
    requires
        from < parts@.len(),
    ensures
        ({
            let p = views(parts@).subrange(from as int, parts@.len() as int);
            &&& path_open(node, p) ==> leaf_at(r, p) == Some(v)
            &&& forall|q: Seq<Seq<char>>| !related(p, q) ==> #[trigger] leaf_at(r, q) == leaf_at(node, q)
            &&& !path_open(node, p) ==> forall|q: Seq<Seq<char>>| #[trigger] leaf_at(r, q) == leaf_at(node, q)
            &&& node is Table ==> r is Table
            &&& node is Leaf ==> r == node
            &&& tree_ok(node) ==> tree_ok(r)
            &&& node is Table && (node->Table_0@.len() > 0 || path_open(node, p)) ==> r->Table_0@.len() > 0
        }),
    decreases parts@.len() - from,
{
    let ghost node0 = node;
    let ghost p = views(parts@).subrange(from as int, parts@.len() as int);
    let len = parts.len();
    assert(p[0] == parts@[from as int]@);
    assert(p.take(0) =~= Seq::<Seq<char>>::empty());
    match node {
        ConfigNode::Leaf(x) => {
            assert(p.len() > 0);
            assert(leaf_at(node0, p.take(0)) is Some);
            assert(!path_open(node0, p));
            let r = ConfigNode::Leaf(x);
            assert(r == node0);
            r
        },
        ConfigNode::Table(es) => {
            let ghost old_es = es@;
            let mut es = es;
            let key = parts[from].clone();
            let ghost k0 = key@;
            let n = es.len();
            let mut i: usize = 0;
            while i < n && !string_eq(&es[i].0, &key)
                invariant
                    es@ == old_es,
                    n == es@.len(),
                    i <= n,
                    forall|j: int| 0 <= j < i ==> es@[j].0@ != key@,
                decreases n - i,
            {
                i = i + 1;
            }
            proof {
                lemma_entry_index_unique(old_es, k0, i as int);
            }
            if from + 1 == len {
                if i < n {
                    es.set(i, (key, ConfigNode::Leaf(v)));
                } else {
                    es.push((key, ConfigNode::Leaf(v)));
                }
                let ghost new_es = es@;
                let r = ConfigNode::Table(es);
                proof {
                    lemma_entry_index_unique(new_es, k0, i as int);
                    if tree_ok(node0) {
                        lemma_replace_ok(old_es, new_es, i as int, k0);
                    }
                    assert(p =~= seq![k0]);
                    assert(p.drop_first() =~= Seq::<Seq<char>>::empty());
                    assert(new_es[i as int].1 == ConfigNode::<W>::Leaf(v));
                    assert(node_at(new_es[i as int].1, p.drop_first()) == Some(ConfigNode::<W>::Leaf(v)));
                    assert(leaf_at(r, p) == Some(v));
                    assert forall|q: Seq<Seq<char>>| !related(p, q) implies #[trigger] leaf_at(r, q)
                        == leaf_at(node0, q) by {
                        lemma_unrelated_below(p, q);
                        if q[0] == k0 {
                            assert(q.take(1) =~= p);
                        } else {
                            lemma_lookup_beside(node0, r, i as int, k0, q);
                        }
                    }
                }
                r
            } else {
                let ghost mut child0: ConfigNode<W> = node0;
                let ghost mut nc: ConfigNode<W> = node0;
                if i < n {
                    let (k, child) = es.remove(i);
                    proof {
                        child0 = child;
                    }
                    let new_child = insert_path(child, parts, from + 1, v);
                    proof {
                        nc = new_child;
                    }
                    es.insert(i, (k, new_child));
                } else {
                    let empty: ConfigNode<W> = ConfigNode::Table(Vec::new());
                    proof {
                        child0 = empty;
                    }
                    let new_child = insert_path(empty, parts, from + 1, v);
                    proof {
                        nc = new_child;
                    }
                    es.push((key, new_child));
                }
                let ghost new_es = es@;
                let r = ConfigNode::Table(es);
                proof {
                    let pp = views(parts@).subrange(from + 1, parts@.len() as int);
                    assert(pp =~= p.drop_first());
                    assert forall|j: int| 0 <= j < old_es.len() && j != i implies new_es[j]
                        == old_es[j] by {}
                    lemma_entry_index_unique(new_es, k0, i as int);
                    if tree_ok(node0) {
                        lemma_forest_ok(old_es);
                        let pp0 = views(parts@).subrange(from + 1, parts@.len() as int);
                        if i < n {
                            assert(child_ok(old_es[i as int].1));
                        } else {
                            assert forall|k: int| 0 <= k < pp0.len() implies leaf_at(child0, #[trigger] pp0.take(k)) is None by {
                                let t = pp0.take(k);
                                if t.len() > 0 {
                                    assert(entry_index(child0->Table_0@, t[0]) == 0);
                                }
                            }
                            assert(path_open(child0, pp0));
                        }
                        assert(tree_ok(child0));
                        if child0 is Table {
                            assert(child0->Table_0@.len() > 0 || path_open(child0, pp0));
                            assert(nc is Table && nc->Table_0@.len() > 0 && tree_ok(nc));
                        }
                        assert(child_ok(nc));
                        lemma_replace_ok(old_es, new_es, i as int, k0);
                    }
                    assert forall|q: Seq<Seq<char>>| q.len() > 0 && q[0] == p[0] implies #[trigger] leaf_at(
                        node0,
                        q,
                    ) == leaf_at(child0, q.drop_first()) by {
                        lemma_lookup_below(node0, i as int, k0, child0, q);
                    }
                    assert forall|q: Seq<Seq<char>>| q.len() > 0 && q[0] == k0 implies leaf_at(r, q)
                        == leaf_at(nc, q.drop_first()) by {
                        lemma_lookup_below(r, i as int, k0, nc, q);
                    }
                    assert forall|q: Seq<Seq<char>>| q.len() > 0 && q[0] != k0 implies leaf_at(r, q)
                        == leaf_at(node0, q) by {
                        lemma_lookup_beside(node0, r, i as int, k0, q);
                    }
                    lemma_open_below(node0, child0, p);
                    if path_open(node0, p) {
                        assert(leaf_at(r, p) == leaf_at(nc, pp));
                    }
                    assert forall|q: Seq<Seq<char>>| !related(p, q) implies #[trigger] leaf_at(r, q)
                        == leaf_at(node0, q) by {
                        lemma_unrelated_below(p, q);
                    }
                    if !path_open(node0, p) {
                        assert forall|q: Seq<Seq<char>>| #[trigger] leaf_at(r, q) == leaf_at(node0, q) by {
                            if q.len() == 0 {
                            } else if q[0] == k0 {
                                assert(leaf_at(nc, q.drop_first()) == leaf_at(child0, q.drop_first()));
                            }
                        }
                    }
                }
                r
            }
        },
    }
}

/// `t` holds exactly the given values: each at its path, and no leaf anywhere else.
pub open spec fn holds_exactly<V>(t: ConfigNode<&V>, cs: Seq<(Seq<Seq<char>>, V)>) -> bool {
    &&& forall|i: int|
        0 <= i < cs.len() ==> leaf_at(t, #[trigger] cs[i].0) is Some && *leaf_at(t, cs[i].0)->0
            == cs[i].1
    &&& forall|q: Seq<Seq<char>>|
        (forall|i: int| 0 <= i < cs.len() ==> !related(#[trigger] cs[i].0, q)) ==> leaf_at(t, q)
            is None
}

/// The namespace prefix under which the children of `ns` stand.
pub open spec fn child_prefix(ns: Seq<char>) -> Seq<char> {
    if ns.len() == 0 {
        seq![]
    } else {
        ns + seq!['.']
    }
}

proof fn lemma_insert_keeps<V>(
    acc: ConfigNode<&V>,
    acc2: ConfigNode<&V>,
    cs: Seq<(Seq<Seq<char>>, V)>,
    p: Seq<Seq<char>>,
    v: &V,
)
    requires
        holds_exactly(acc, cs),
        prefix_free(cs.push((p, *v))),
        path_open(acc, p) ==> leaf_at(acc2, p) == Some(v),
        forall|q: Seq<Seq<char>>| !related(p, q) ==> #[trigger] leaf_at(acc2, q) == leaf_at(acc, q),
    ensures
        holds_exactly(acc2, cs.push((p, *v))),
{
    let ncs = cs.push((p, *v));
    let n = cs.len() as int;
    assert(ncs[n].0 == p);
    assert forall|i: int| 0 <= i < n implies !related(cs[i].0, p) by {
        assert(ncs[i] == cs[i]);
        assert(!is_prefix(ncs[i].0, ncs[n].0));
        assert(!is_prefix(ncs[n].0, ncs[i].0));
    }
    assert forall|k: int| 0 <= k < p.len() implies leaf_at(acc, #[trigger] p.take(k)) is None by {
        let t = p.take(k);
        if leaf_at(acc, t) is Some {
            let i = choose|i: int| 0 <= i < cs.len() && related(#[trigger] cs[i].0, t);
            let pi = cs[i].0;
            if is_prefix(pi, t) {
                assert(p.take(pi.len() as int) =~= t.take(pi.len() as int));
                assert(is_prefix(pi, p));
            } else {
                assert(is_prefix(t, pi));
                lemma_leaf_path_open(acc, pi);
                if t.len() < pi.len() {
                    assert(leaf_at(acc, pi.take(t.len() as int)) is None);
                } else {
                    assert(pi =~= t);
                    assert(p.take(pi.len() as int) =~= pi);
                    assert(is_prefix(pi, p));
                }
            }
        }
    }
    assert forall|i: int| 0 <= i < ncs.len() implies leaf_at(acc2, #[trigger] ncs[i].0) is Some
        && *leaf_at(acc2, ncs[i].0)->0 == ncs[i].1 by {
        if i < n {
            assert(ncs[i] == cs[i]);
            assert(leaf_at(acc2, cs[i].0) == leaf_at(acc, cs[i].0));
        }
    }
    assert forall|q: Seq<Seq<char>>|
        (forall|i: int| 0 <= i < ncs.len() ==> !related(#[trigger] ncs[i].0, q)) implies leaf_at(
        acc2,
        q,
    ) is None by {
        assert(!related(ncs[n].0, q));
        assert forall|i: int| 0 <= i < cs.len() implies !related(#[trigger] cs[i].0, q) by {
            assert(ncs[i] == cs[i]);
            assert(!related(ncs[i].0, q));
        }
    }
}

proof fn lemma_prefix_free_shrink<A>(cs: Seq<(Seq<Seq<char>>, A)>, x: (Seq<Seq<char>>, A))
    requires
        prefix_free(cs.push(x)),
    ensures
        prefix_free(cs),
{
    assert forall|i: int, j: int|
        0 <= i < cs.len() && 0 <= j < cs.len() && i != j implies !is_prefix(
        #[trigger] cs[i].0,
        #[trigger] cs[j].0,
    ) by {
        assert(cs.push(x)[i] == cs[i]);
        assert(cs.push(x)[j] == cs[j]);
    }
}

proof fn lemma_set_all_append<A>(e: Seq<(Seq<char>, A)>, a: Seq<(Seq<char>, A)>, b: Seq<(Seq<char>, A)>)
    ensures
        set_all(e, a + b) == set_all(set_all(e, a), b),
    decreases b.len(),
{
    if b.len() == 0 {
        assert(a + b =~= a);
    } else {
        assert((a + b).drop_last() =~= a + b.drop_last());
        assert((a + b).last() == b.last());
        lemma_set_all_append(e, a, b.drop_last());
    }
}

proof fn lemma_empty_table_holds_nothing<V>(t: ConfigNode<&V>)
    requires
        t is Table,
        t->Table_0@.len() == 0,
    ensures
        holds_exactly(t, Seq::<(Seq<Seq<char>>, V)>::empty()),
{
    assert forall|q: Seq<Seq<char>>| true implies leaf_at(t, q) is None by {
        if q.len() > 0 {
            assert(entry_index(t->Table_0@, q[0]) == 0);
        }
    }
}

proof fn lemma_key_index<A>(es: Seq<(Seq<char>, A)>, k: Seq<char>)
    ensures
        0 <= key_index(es, k) <= es.len(),
        key_index(es, k) < es.len() ==> es[key_index(es, k)].0 == k,
        forall|j: int| 0 <= j < key_index(es, k) ==> es[j].0 != k,
    decreases es.len(),
{
    if es.len() > 0 && es[0].0 != k {
        lemma_key_index(es.drop_first(), k);
        assert forall|j: int| 0 <= j < key_index(es, k) implies es[j].0 != k by {
            if j > 0 {
                assert(es[j] == es.drop_first()[j - 1]);
            }
        }
    }
}

proof fn lemma_key_index_unique<A>(es: Seq<(Seq<char>, A)>, k: Seq<char>, i: int)
    requires
        0 <= i <= es.len(),
        i < es.len() ==> es[i].0 == k,
        forall|j: int| 0 <= j < i ==> es[j].0 != k,
    ensures
        key_index(es, k) == i,
{
    lemma_key_index(es, k);
    let e = key_index(es, k);
    if e < i {
        assert(es[e].0 != k);
    } else if i < e {
        assert(es[i].0 != k);
    }
}

/// The value stored under a key by a leaf write.
pub open spec fn value_at<A>(es: Seq<(Seq<char>, A)>, k: Seq<char>) -> Option<A> {
    let i = key_index(es, k);
    if i < es.len() {
        Some(es[i].1)
    } else {
        None
    }
}

/// Setting a key stores the value under it, and reading any other key gives
/// what it gave before.
pub proof fn lemma_set_then_get<A>(es: Seq<(Seq<char>, A)>, k: Seq<char>, v: A, other: Seq<char>)
    requires
        other != k,
    ensures
        value_at(set_entry(es, k, v), k) == Some(v),
        value_at(set_entry(es, k, v), other) == value_at(es, other),
{
    let i = key_index(es, k);
    let ns = set_entry(es, k, v);
    lemma_key_index(es, k);
    lemma_key_index(es, other);
    lemma_key_index_unique(ns, k, i);
    let e = key_index(es, other);
    assert(e != i || e == es.len());
    if e < es.len() {
        lemma_key_index_unique(ns, other, e);
    } else {
        lemma_key_index_unique(ns, other, ns.len() as int);
    }
}

/// The value a read of a namespace gives: the leaf read as the wanted type,
/// else the document below it read so, else the default.
pub fn resolve_value<T>(leaf: Option<T>, composite: Option<T>, default: T) -> (r: T)
    ensures
        r == match leaf {
            Some(v) => v,
            None => match composite {
                Some(c) => c,
                None => default,
            },
        },
{
    match leaf {
        Some(v) => v,
        None => match composite {
            Some(c) => c,
            None => default,
        },
    }
}

/// No two entries share a key.
pub open spec fn keys_unique<A>(es: Seq<(Seq<char>, A)>) -> bool {
    forall|i: int, j: int| 0 <= i < es.len() && 0 <= j < es.len() && i != j ==> #[trigger] es[i].0 != #[trigger] es[j].0
}

proof fn lemma_set_entry_unique<A>(es: Seq<(Seq<char>, A)>, k: Seq<char>, v: A)
    requires
        keys_unique(es),
    ensures
        keys_unique(set_entry(es, k, v)),
{
    lemma_key_index(es, k);
    let ns = set_entry(es, k, v);
    let x = key_index(es, k);
    assert forall|i: int, j: int| 0 <= i < ns.len() && 0 <= j < ns.len() && i != j implies #[trigger] ns[i].0
        != #[trigger] ns[j].0 by {
        if i != x && j != x {
            assert(ns[i] == es[i] && ns[j] == es[j]);
        } else if i == x {
            assert(ns[j] == es[j]);
            if x < es.len() {
                assert(es[x].0 != es[j].0);
            }
        } else {
            assert(ns[i] == es[i]);
            if x < es.len() {
                assert(es[x].0 != es[i].0);
            }
        }
    }
}

proof fn lemma_set_all_unique<A>(es: Seq<(Seq<char>, A)>, list: Seq<(Seq<char>, A)>)
    requires
        keys_unique(es),
    ensures
        keys_unique(set_all(es, list)),
    decreases list.len(),
{
    if list.len() > 0 {
        lemma_set_all_unique(es, list.drop_last());
        lemma_set_entry_unique(set_all(es, list.drop_last()), list.last().0, list.last().1);
    }
}

/// Splits `s` at each dot, as `str::split('.')` does.
pub fn split_dots(s: &str) -> (r: Vec<String>)
    ensures
        views(r@) == dot_parts(s@),
        r@.len() > 0,
{
    let n = s.unicode_len();
    let mut out: Vec<String> = Vec::new();
    let mut start: usize = 0;
    let mut i: usize = 0;
    assert(s@.take(0) =~= Seq::<char>::empty());
    assert(views(out@).push(s@.subrange(0, 0)) =~= seq![Seq::<char>::empty()]);
    while i < n
        invariant
            n == s@.len(),
            start <= i <= n,
            dot_parts(s@.take(i as int)) == views(out@).push(s@.subrange(start as int, i as int)),
        decreases n - i,
    {
        let c = s.get_char(i);
        assert(s@.take(i + 1).drop_last() =~= s@.take(i as int));
        assert(s@.take(i + 1).last() == c);
        if c == '.' {
            let part = String::from_str(s.substring_char(start, i));
            let ghost before = out@;
            out.push(part);
            assert(views(out@) =~= views(before).push(part@));
            start = i + 1;
            assert(s@.subrange(start as int, i + 1) =~= Seq::<char>::empty());
        } else {
            assert(s@.subrange(start as int, i + 1) =~= s@.subrange(start as int, i as int).push(c));
        }
        i = i + 1;
    }
    let last = String::from_str(s.substring_char(start, n));
    let ghost before = out@;
    out.push(last);
    assert(views(out@) =~= views(before).push(last@));
    assert(s@.take(n as int) =~= s@);
    out
}

/// The store's content: the flat entries in first-set order, whether they
/// changed since the last durable write, and the auto-save period.
pub struct StoreView<V> {
    pub entries: Seq<(Seq<char>, V)>,
    pub dirty: bool,
    pub interval_ms: u64,
}

/// The default auto-save period, in milliseconds.
pub const AUTO_SAVE_INTERVAL_MS: u64 = 600_000;

/// Flat map from dot-delimited namespaces to values, with a dirty flag for
/// the background writer.
pub struct ConfigHelper<V> {
    entries: Vec<(String, V)>,
    dirty: bool,
    auto_save_interval_ms: u64,
}

impl<V> View for ConfigHelper<V> {
    type V = StoreView<V>;

    closed spec fn view(&self) -> StoreView<V> {
        StoreView {
            entries: self.entries@.map_values(|e: (String, V)| (e.0@, e.1)),
            dirty: self.dirty,
            interval_ms: self.auto_save_interval_ms,
        }
    }
}

impl<V> ConfigHelper<V> {
    /// Each key stands once.
    pub open spec fn wf(&self) -> bool {
        keys_unique(self@.entries)
    }

    pub fn new() -> (r: Self)
        ensures
            r.wf(),
            r@.entries.len() == 0,
            !r@.dirty,
            r@.interval_ms == AUTO_SAVE_INTERVAL_MS,
    {
        ConfigHelper { entries: Vec::new(), dirty: false, auto_save_interval_ms: AUTO_SAVE_INTERVAL_MS }
    }

    /// Sets the auto-save period.
    pub fn set_auto_save_interval(&mut self, interval_ms: u64)
        ensures
            final(self)@ == (StoreView { interval_ms, ..old(self)@ }),
    {
        self.auto_save_interval_ms = interval_ms;
    }

    pub fn auto_save_interval(&self) -> (r: u64)
        ensures
            r == self@.interval_ms,
    {
        self.auto_save_interval_ms
    }

    pub fn is_dirty(&self) -> (r: bool)
        ensures
            r == self@.dirty,
    {
        self.dirty
    }

    fn position(&self, namespace: &str) -> (r: usize)
        ensures
            r == key_index(self@.entries, namespace@),
            r <= self@.entries.len(),
    {
        let ghost es = self@.entries;
        let key = String::from_str(namespace);
        let n = self.entries.len();
        let mut i: usize = 0;
        assert(es.subrange(0, n as int) =~= es);
        while i < n
            invariant
                es == self@.entries,
                key@ == namespace@,
                n == es.len(),
                i <= n,
                key_index(es, namespace@) == i + key_index(es.subrange(i as int, n as int), namespace@),
            decreases n - i,
        {
            if string_eq(&self.entries[i].0, &key) {
                assert(es.subrange(i as int, n as int)[0] == es[i as int]);
                return i;
            }
            assert(es.subrange(i as int, n as int).drop_first() =~= es.subrange(i + 1, n as int));
            i = i + 1;
        }
        i
    }

    /// Stores `value` as the leaf `namespace` and marks the store dirty.
    pub fn set_raw_value(&mut self, namespace: &str, value: V)
        ensures
            final(self)@ == (StoreView {
                entries: set_entry(old(self)@.entries, namespace@, value),
                dirty: true,
                ..old(self)@
            }),
            old(self).wf() ==> final(self).wf(),
    {
        proof {
            if old(self).wf() {
                lemma_set_entry_unique(old(self)@.entries, namespace@, value);
            }
        }
        let i = self.position(namespace);
        let key = String::from_str(namespace);
        if i < self.entries.len() {
            self.entries.set(i, (key, value));
        } else {
            self.entries.push((key, value));
        }
        self.dirty = true;
        assert(self@.entries =~= set_entry(old(self)@.entries, namespace@, value));
    }

    /// The leaf stored under exactly `namespace`.
    pub fn get_raw_value(&self, namespace: &str) -> (r: Option<&V>)
        ensures
            key_index(self@.entries, namespace@) < self@.entries.len() ==> (r matches Some(v) && *v
                == self@.entries[key_index(self@.entries, namespace@)].1),
            key_index(self@.entries, namespace@) == self@.entries.len() ==> r is None,
    {
        let i = self.position(namespace);
        if i < self.entries.len() {
            Some(&self.entries[i].1)
        } else {
            None
        }
    }

    /// The document of all entries below `prefix`, nested at the dots, and
    /// how many entries went into it.
    fn build_tree(&self, prefix: &String) -> (r: (ConfigNode<&V>, usize))
        ensures
            r.0 is Table,
            r.1 == children_of(self@.entries, prefix@).len(),
            tree_ok(r.0),
            leaves_from(r.0, children_of(self@.entries, prefix@)),
            prefix_free(children_of(self@.entries, prefix@)) ==> holds_exactly(
                r.0,
                children_of(self@.entries, prefix@),
            ),
    {
        let ghost es = self@.entries;
        let ghost pre = prefix@;
        let n = self.entries.len();
        let mut acc: ConfigNode<&V> = ConfigNode::Table(Vec::new());
        let mut cnt: usize = 0;
        let mut j: usize = 0;
        proof {
            lemma_empty_table_holds_nothing::<V>(acc);
            assert(es.take(0) =~= Seq::<(Seq<char>, V)>::empty());
            assert(acc->Table_0@ =~= Seq::<(String, ConfigNode<&V>)>::empty());
            assert(leaves_from(acc, children_of(es.take(0), pre))) by {
                assert forall|q: Seq<Seq<char>>| #[trigger] leaf_at(acc, q) is None by {
                    if q.len() > 0 {
                        assert(entry_index(acc->Table_0@, q[0]) == 0);
                    }
                }
            }
        }
        while j < n
            invariant
                es == self@.entries,
                pre == prefix@,
                n == es.len(),
                j <= n,
                acc is Table,
                tree_ok(acc),
                leaves_from(acc, children_of(es.take(j as int), pre)),
                cnt == children_of(es.take(j as int), pre).len(),
                cnt <= j,
                prefix_free(children_of(es.take(j as int), pre)) ==> holds_exactly(
                    acc,
                    children_of(es.take(j as int), pre),
                ),
            decreases n - j,
        {
            let ghost cs = children_of(es.take(j as int), pre);
            assert(es.take(j + 1).drop_last() =~= es.take(j as int));
            assert(es.take(j + 1).last() == es[j as int]);
            match strip_prefix(self.entries[j].0.as_str(), prefix.as_str()) {
                Some(rest) => {
                    let parts = split_dots(rest.as_str());
                    let v: &V = &self.entries[j].1;
                    let ghost p = views(parts@);
                    assert(views(parts@).subrange(0, parts@.len() as int) =~= p);
                    let ghost before = acc;
                    acc = insert_path(acc, &parts, 0, v);
                    proof {
                        let ncs = cs.push((p, *v));
                        assert(children_of(es.take(j + 1), pre) == ncs);
                        lemma_insert_sound(before, acc, cs, p, v);
                        if prefix_free(ncs) {
                            lemma_prefix_free_shrink(cs, (p, *v));
                            lemma_insert_keeps(before, acc, cs, p, v);
                        }
                    }
                    cnt = cnt + 1;
                },
                None => {},
            }
            j = j + 1;
        }
        assert(es.take(n as int) =~= es);
        (acc, cnt)
    }

    /// The entries below `namespace`, nested at the dots into one document;
    /// `None` when no entry stands below it. The empty namespace takes all
    /// entries. Every table of the document names its children once, no
    /// inner table is empty, and every leaf is an entry's value at its path;
    /// when no key is a dotted prefix of another, every entry's value stands
    /// at its path.
    pub fn get_composite(&self, namespace: &str) -> (r: Option<ConfigNode<&V>>)
        ensures
            ({
                let cs = children_of(self@.entries, child_prefix(namespace@));
                &&& r is None <==> cs.len() == 0
                &&& r matches Some(t) ==> t is Table && tree_ok(t) && leaves_from(t, cs) && (
                prefix_free(cs) ==> holds_exactly(t, cs))
            }),
    {
        let prefix = if namespace.unicode_len() == 0 {
            String::new()
        } else {
            let mut p = String::from_str(namespace);
            let dot = ".";
            proof {
                reveal_strlit(".");
            }
            p.append(dot);
            p
        };
        assert(prefix@ =~= child_prefix(namespace@));
        let (t, cnt) = self.build_tree(&prefix);
        if cnt == 0 {
            None
        } else {
            Some(t)
        }
    }

    /// The whole store as one nested document, for the durable write; what
    /// `get_composite` says of its document holds here for all entries.
    pub fn snapshot(&self) -> (r: ConfigNode<&V>)
        ensures
            r is Table,
            tree_ok(r),
            leaves_from(r, children_of(self@.entries, seq![])),
            prefix_free(children_of(self@.entries, seq![])) ==> holds_exactly(
                r,
                children_of(self@.entries, seq![]),
            ),
    {
        let prefix = String::new();
        let (t, _) = self.build_tree(&prefix);
        t
    }

    fn put(&mut self, key: String, value: V)
        ensures
            final(self)@ == (StoreView {
                entries: set_entry(old(self)@.entries, key@, value),
                ..old(self)@
            }),
    {
        let i = self.position(key.as_str());
        if i < self.entries.len() {
            self.entries.set(i, (key, value));
        } else {
            self.entries.push((key, value));
        }
        assert(self@.entries =~= set_entry(old(self)@.entries, key@, value));
    }

    #[verifier::loop_isolation(false)]
    fn flatten_into(&mut self, es: Vec<(String, ConfigNode<V>)>, prefix: &String)
        ensures
            final(self)@ == (StoreView {
                entries: set_all(old(self)@.entries, forest_leaves(es@, prefix@)),
                ..old(self)@
            }),
        decreases es@,
    {
        let ghost old_es = es@;
        let ghost start = self@.entries;
        let n = es.len();
        let mut rest = es;
        let mut k: usize = 0;
        assert(old_es.take(0) =~= Seq::<(String, ConfigNode<V>)>::empty());
        assert(old_es.subrange(0, n as int) =~= old_es);
        while k < n
            invariant
                n == old_es.len(),
                k <= n,
                rest@ == old_es.subrange(k as int, n as int),
                self@.entries == set_all(start, forest_leaves(old_es.take(k as int), prefix@)),
                self@.dirty == old(self)@.dirty,
                self@.interval_ms == old(self)@.interval_ms,
            decreases n - k,
        {
            let (key, node) = rest.remove(0);
            assert(rest@ =~= old_es.subrange(k + 1, n as int));
            assert(old_es.take(k + 1).drop_last() =~= old_es.take(k as int));
            assert(old_es.take(k + 1).last() == old_es[k as int]);
            let dk = if prefix.as_str().unicode_len() == 0 {
                key
            } else {
                let mut d = prefix.clone();
                let dot = ".";
                proof {
                    reveal_strlit(".");
                }
                d.append(dot);
                d.append(key.as_str());
                d
            };
            assert(dk@ =~= dotted(prefix@, old_es[k as int].0@));
            let ghost before = self@.entries;
            let ghost done = forest_leaves(old_es.take(k as int), prefix@);
            match node {
                ConfigNode::Leaf(v) => {
                    assert(forest_leaves(old_es.take(k + 1), prefix@) == done.push((dk@, v)));
                    assert(done.push((dk@, v)).drop_last() =~= done);
                    self.put(dk, v);
                },
                ConfigNode::Table(sub) => {
                    let ghost sub_v = sub@;
                    let ghost item = old_es[k as int];
                    proof {
                        assert(decreases_to!(old_es => item));
                        assert(decreases_to!(item => item.1));
                        assert(decreases_to!(item.1 => item.1->Table_0));
                        assert(decreases_to!(item.1->Table_0 => item.1->Table_0@));
                        assert(item.1->Table_0@ == sub_v);
                        assert(decreases_to!(old_es => sub_v));
                    }
                    assert(forest_leaves(old_es.take(k + 1), prefix@) == done + forest_leaves(
                        sub_v,
                        dk@,
                    ));
                    self.flatten_into(sub, &dk);
                    proof {
                        lemma_set_all_append(start, done, forest_leaves(sub_v, dk@));
                    }
                },
            }
            k = k + 1;
        }
        assert(old_es.take(n as int) =~= old_es);
    }

    /// Fills the store from a durable document, flattening nested tables into
    /// dot-joined keys. The dirty flag is left as it was.
    pub fn load(&mut self, doc: ConfigNode<V>)
        ensures
            final(self)@ == (StoreView {
                entries: set_all(old(self)@.entries, doc_leaves(doc)),
                ..old(self)@
            }),
            old(self).wf() ==> final(self).wf(),
    {
        proof {
            if old(self).wf() {
                lemma_set_all_unique(old(self)@.entries, doc_leaves(doc));
            }
        }
        match doc {
            ConfigNode::Leaf(v) => {
                let ghost d = doc_leaves(ConfigNode::Leaf(v));
                assert(d.drop_last() =~= Seq::<(Seq<char>, V)>::empty());
                let key = String::new();
                assert(key@ == d.last().0);
                assert(set_all(self@.entries, d.drop_last()) == self@.entries);
                self.put(key, v);
            },
            ConfigNode::Table(es) => {
                let prefix = String::new();
                self.flatten_into(es, &prefix);
            },
        }
    }

    /// Starts a durable write: reports whether there is anything to write and
    /// clears the dirty flag.
    pub fn begin_save(&mut self) -> (r: bool)
        ensures
            r == old(self)@.dirty,
            final(self)@ == (StoreView { dirty: false, ..old(self)@ }),
    {
        let was = self.dirty;
        self.dirty = false;
        was
    }

    /// A durable write failed: the store stays dirty for the next attempt.
    pub fn save_failed(&mut self)
        ensures
            final(self)@ == (StoreView { dirty: true, ..old(self)@ }),
    {
        self.dirty = true;
    }
}


} // verus!
