use vstd::prelude::*;
use vstd::string::*;

use crate::shortcut::{ScoredItem, ShortcutResult};

verus! {

/// A follow-up a result offers: icon, hint text, opaque value, and the id of
/// the registered action that handles it.
#[allow(non_camel_case_types)]
#[derive(Debug, Clone)]
pub struct action {
    pub icon: String,
    pub tooltip: String,
    pub value: String,
    pub id: String,
}

/// One display item.
#[derive(Debug, Clone)]
pub struct ExtensionResult {
    pub icon: String,
    pub title: String,
    pub description: String,
    pub actions: Vec<action>,
}

/// An ordered result set with its count.
#[derive(Debug, Clone)]
pub struct Results {
    pub total_count: usize,
    pub items: Vec<ExtensionResult>,
}

/// What a plugin hands back: one item, a list, a domain error, or nothing.
#[derive(Debug, Clone)]
pub enum PluginResult {
    ExtensionResult(ExtensionResult),
    Results(Results),
    PluginError(String),
    Null,
}

/// The count and the items that positively scored results contribute to one
/// result set: a single item counts one, a list adds its own count, errors
/// and empty answers add nothing. A result scored 0 is a handler's way to
/// offer nothing and is left out.
pub open spec fn gathered(items: Seq<ScoredItem<PluginResult>>) -> (usize, Seq<ExtensionResult>)
    decreases items.len(),
{
    if items.len() == 0 {
        (0, seq![])
    } else {
        let (total, acc) = gathered(items.drop_last());
        let it = items.last();
        if it.score > 0 {
            match it.value {
                PluginResult::ExtensionResult(e) => (total.saturating_add(1), acc.push(e)),
                PluginResult::Results(r) => (total.saturating_add(r.total_count), acc + r.items@),
                _ => (total, acc),
            }
        } else {
            (total, acc)
        }
    }
}

impl PluginResult {
    /// Joins a ranked shortcut answer into one result set, keeping order.
    pub fn from_shortcut(shortcut: ShortcutResult<PluginResult>) -> (r: PluginResult)
        ensures
            r matches PluginResult::Results(res) && res.total_count == gathered(
                shortcut.items@,
            ).0 && res.items@ == gathered(shortcut.items@).1,
    {
        let mut rest = shortcut.items;
        let ghost all = rest@;
        let n = rest.len();
        let mut total: usize = 0;
        let mut items: Vec<ExtensionResult> = Vec::new();
        let mut i: usize = 0;
        while i < n
            invariant
                n == all.len(),
                i <= n,
                rest@ == all.subrange(i as int, n as int),
                (total, items@) == gathered(all.take(i as int)),
            decreases n - i,
        {
            let it = rest.remove(0);
            assert(rest@ =~= all.subrange(i + 1, n as int));
            assert(all.take(i + 1).drop_last() =~= all.take(i as int));
            assert(all.take(i + 1).last() == it);
            if it.score > 0 {
                match it.value {
                    PluginResult::ExtensionResult(e) => {
                        items.push(e);
                        total = total.saturating_add(1);
                    },
                    PluginResult::Results(r) => {
                        let ghost before = items@;
                        let mut more = r.items;
                        items.append(&mut more);
                        assert(items@ == before + r.items@);
                        total = total.saturating_add(r.total_count);
                    },
                    _ => {},
                }
            }
            i = i + 1;
        }
        assert(all.take(n as int) =~= all);
        PluginResult::Results(Results { total_count: total, items })
    }
}

/// Plugin metadata. Two plugins are the same plugin when their ids agree.
#[derive(Debug, Clone)]
pub struct MetaData {
    id: String,
    version: String,
    priority: usize,
}

impl PartialEq for MetaData {
    fn eq(&self, other: &MetaData) -> (r: bool) {
        self.id == other.id
    }
}

impl vstd::std_specs::cmp::PartialEqSpecImpl for MetaData {
    open spec fn obeys_eq_spec() -> bool {
        true
    }

    open spec fn eq_spec(&self, other: &MetaData) -> bool {
        self.spec_id() == other.spec_id()
    }
}

/// The default plugin priority.
pub const DEFAULT_PRIORITY: usize = 100;

impl MetaData {
    pub closed spec fn spec_id(&self) -> Seq<char> {
        self.id@
    }

    pub closed spec fn spec_version(&self) -> Seq<char> {
        self.version@
    }

    pub closed spec fn spec_priority(&self) -> usize {
        self.priority
    }

    /// Metadata for `id` with version "1.0.0" and the default priority.
    pub fn default_builder(id: &str) -> (r: Self)
        ensures
            r.spec_id() == id@,
            r.spec_version() == "1.0.0"@,
            r.spec_priority() == DEFAULT_PRIORITY,
    {
        MetaData { id: String::from_str(id), priority: DEFAULT_PRIORITY, version: String::from_str("1.0.0") }
    }

    pub fn set_priority(self, priority: usize) -> (r: Self)
        ensures
            r.spec_priority() == priority,
            r.spec_id() == self.spec_id(),
            r.spec_version() == self.spec_version(),
    {
        let mut m = self;
        m.priority = priority;
        m
    }

    pub fn set_version(self, version: &str) -> (r: Self)
        ensures
            r.spec_version() == version@,
            r.spec_id() == self.spec_id(),
            r.spec_priority() == self.spec_priority(),
    {
        let mut m = self;
        m.version = String::from_str(version);
        m
    }

    pub fn build(self) -> (r: Self)
        ensures
            r == self,
    {
        self
    }

    pub fn id(&self) -> (r: &str)
        ensures
            r@ == self.spec_id(),
    {
        self.id.as_str()
    }

    pub fn version(&self) -> (r: &str)
        ensures
            r@ == self.spec_version(),
    {
        self.version.as_str()
    }

    pub fn priority(&self) -> (r: usize)
        ensures
            r == self.spec_priority(),
    {
        self.priority
    }
}

/// A plugin. Its load hook registers commands, handlers and actions on the
/// core `C`; the unload hook runs before the plugin is discarded and does
/// nothing unless the plugin says otherwise.
pub trait Extension<C> {
    /// What the load hook does: `before` is the core it is given, `after`
    /// the core it leaves.
    spec fn loaded(&self, before: C, after: C) -> bool;

    fn on_plugin_load(&self, core: &mut C)
        ensures
            self.loaded(*old(core), *final(core)),
    ;

    fn on_plugin_unload(&self, core: &mut C) {
    }

    fn get_meta_data(&self) -> MetaData;
}

/// The plugins, in registration order. Priority plays no part here: it only
/// breaks ties in scored dispatch.
pub struct PluginManager<E> {
    plugins: Vec<E>,
}

impl<E> PluginManager<E> {
    pub closed spec fn plugins(&self) -> Seq<E> {
        self.plugins@
    }

    pub fn new() -> (r: Self)
        ensures
            r.plugins().len() == 0,
    {
        PluginManager { plugins: Vec::new() }
    }

    /// Appends a plugin after those already held.
    pub fn add_extension(self, ext: E) -> (r: Self)
        ensures
            r.plugins() == self.plugins().push(ext),
    {
        let mut m = self;
        m.plugins.push(ext);
        m
    }

    pub fn len(&self) -> (r: usize)
        ensures
            r == self.plugins().len(),
    {
        self.plugins.len()
    }

    /// Runs every plugin's load hook once, in registration order: the core
    /// passes through one state per plugin, each the previous one after that
    /// plugin's hook.
    pub fn load_all<C>(&self, core: &mut C) where E: Extension<C>
        ensures
            exists|states: Seq<C>|
                #![trigger states.len()]
                states.len() == self.plugins().len() + 1 && states[0] == *old(core)
                    && states.last() == *final(core) && forall|i: int|
                    0 <= i < self.plugins().len() ==> #[trigger] self.plugins()[i].loaded(
                        states[i],
                        states[i + 1],
                    ),
    {
        let ghost mut states: Seq<C> = seq![*core];
        let mut i: usize = 0;
        while i < self.plugins.len()
            invariant
                i <= self.plugins@.len(),
                states.len() == i + 1,
                states[0] == *old(core),
                states.last() == *core,
                forall|k: int| 0 <= k < i ==> #[trigger] self.plugins@[k].loaded(states[k], states[k + 1]),
            decreases self.plugins@.len() - i,
        {
            self.plugins[i].on_plugin_load(core);
            proof {
                states = states.push(*core);
            }
            i = i + 1;
        }
        assert(states.len() == self.plugins().len() + 1);
    }

    /// Runs every plugin's unload hook once, in registration order (as for
    /// `load_all`, by this body, not by a proved property).
    pub fn unload_all<C>(&self, core: &mut C) where E: Extension<C> {
        let mut i: usize = 0;
        while i < self.plugins.len()
            invariant
                i <= self.plugins@.len(),
            decreases self.plugins@.len() - i,
        {
            self.plugins[i].on_plugin_unload(core);
            i = i + 1;
        }
    }
}

} // verus!
