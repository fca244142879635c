use vstd::prelude::*;
use vstd::string::*;

use crate::action_runner::ActionRunner;
use crate::command_tree::{dispatch, CommandContext, CommandDispatcher, CommandNode, Parameter};
use crate::config::{
    child_prefix, children_of, holds_exactly, leaves_from, prefix_free, tree_ok, ConfigHelper, ConfigNode,
};
use crate::extension::{gathered, ExtensionResult, MetaData, PluginResult, Results};
use crate::shortcut::{
    scored_outcome, DispatchStage, DispatcherView, ScoredItem, ShortcutError, ShortcutRegistration, ShortcutRunner, ShortcutsDispatcher,
};

verus! {

/// A failure to show the user, distinct from "no result".
#[derive(Debug)]
pub enum Error {
    /// A plugin reported a domain error.
    Plugin(String),
}

/// Invokes the callback a command selected, with the context the walk collected.
pub trait CommandRunner<F> {
    fn run_command(&mut self, callback: &F, ctx: CommandContext) -> PluginResult;
}

/// How many scored results a query returns at most.
pub const QUERY_LIMIT: usize = 10;

/// The boundary's answer for what a plugin handed back.
pub open spec fn query_answer(r: PluginResult) -> Result<(usize, Seq<ExtensionResult>), Seq<char>> {
    match r {
        PluginResult::Null => Ok((0, seq![])),
        PluginResult::ExtensionResult(e) => Ok((1, seq![e])),
        PluginResult::Results(res) => Ok((res.total_count, res.items@)),
        PluginResult::PluginError(msg) => Err(msg@),
    }
}

/// `r` is the result set with count `g.0` and items `g.1`.
pub open spec fn answer_of(r: Result<Results, Error>, g: (usize, Seq<ExtensionResult>)) -> bool {
    r matches Ok(res) && res.total_count == g.0 && res.items@ == g.1
}

/// `key` scoped under the plugin's id: `<id>.<key>`.
pub open spec fn scoped_key(id: Seq<char>, key: Seq<char>) -> Seq<char> {
    id + seq!['.'] + key
}

/// The coordinator: command grammar, scored dispatch, action registry and
/// configuration, each owned here.
pub struct Core<P, F, H, A, V> {
    command_dispatcher: CommandDispatcher<P, F>,
    shortcut_dispatcher: ShortcutsDispatcher<H>,
    action_runner: ActionRunner<A>,
    config_helper: ConfigHelper<V>,
}

impl<P: Parameter, F, H, A, V> Core<P, F, H, A, V> {
    pub closed spec fn commands(&self) -> CommandNode<P, F> {
        self.command_dispatcher.root()
    }

    pub closed spec fn shortcuts(&self) -> DispatcherView<H> {
        self.shortcut_dispatcher@
    }

    pub closed spec fn actions(&self) -> Map<Seq<char>, A> {
        self.action_runner@
    }

    pub closed spec fn config(&self) -> crate::config::StoreView<V> {
        self.config_helper@
    }

    /// Each part is well formed: unique Exact keys and ordered registrations,
    /// uniquely named command children, unique configuration keys.
    pub open spec fn wf(&self) -> bool {
        &&& self.shortcuts().wf()
        &&& crate::command_tree::node_wf(self.commands())
        &&& crate::config::keys_unique(self.config().entries)
    }

    /// A core around `config` whose commands start with `prefix`.
    pub fn new(config: ConfigHelper<V>, prefix: &str) -> (r: Self)
        ensures
            r.commands().name@ == prefix@,
            r.commands().child@.len() == 0,
            r.commands().execute is None,
            r.shortcuts().exact.len() == 0,
            r.shortcuts().any.len() == 0,
            r.shortcuts().fixed.len() == 0,
            r.actions() == Map::<Seq<char>, A>::empty(),
            r.config() == config@,
            config.wf() ==> r.wf(),
    {
        Core {
            command_dispatcher: CommandDispatcher::new(prefix),
            shortcut_dispatcher: ShortcutsDispatcher::new(),
            action_runner: ActionRunner::new(),
            config_helper: config,
        }
    }

    /// Adds a command below the root, replacing one of the same name.
    pub fn register_command(&mut self, node: CommandNode<P, F>)
        ensures
            final(self).commands().child@ == crate::command_tree::with_child(
                old(self).commands().child@,
                node,
            ),
            final(self).commands().name == old(self).commands().name,
            final(self).shortcuts() == old(self).shortcuts(),
            final(self).actions() == old(self).actions(),
            final(self).config() == old(self).config(),
            old(self).wf() && crate::command_tree::node_wf(node) ==> final(self).wf(),
    {
        self.command_dispatcher.register(node);
    }

    /// Registers a scored handler; see `ShortcutsDispatcher::register`.
    pub fn register_shortcut(&mut self, registration: ShortcutRegistration<H>) -> (r: Result<
        (),
        ShortcutError,
    >)
        requires
            old(self).wf(),
            old(self).shortcuts().next_order < usize::MAX,
        ensures
            final(self).wf(),
            final(self).commands() == old(self).commands(),
            final(self).actions() == old(self).actions(),
            final(self).config() == old(self).config(),
            r is Ok ==> final(self).shortcuts().exact.len() + final(self).shortcuts().any.len()
                + final(self).shortcuts().fixed.len() == old(self).shortcuts().exact.len()
                + old(self).shortcuts().any.len() + old(self).shortcuts().fixed.len() + 1,
            r is Err ==> final(self).shortcuts() == old(self).shortcuts(),
    {
        self.shortcut_dispatcher.register(registration)
    }

    /// Registers an action; the last registration of an id wins.
    pub fn add_action(&mut self, id: &str, f: A)
        ensures
            final(self).actions() == old(self).actions().insert(id@, f),
            final(self).commands() == old(self).commands(),
            final(self).shortcuts() == old(self).shortcuts(),
            final(self).config() == old(self).config(),
            final(self).wf() == old(self).wf(),
    {
        self.action_runner.add(id, f);
    }

    pub fn get_command_dispatcher(&self) -> (r: &CommandDispatcher<P, F>)
        ensures
            r.root() == self.commands(),
    {
        &self.command_dispatcher
    }

    pub fn get_shortcut_dispatcher(&self) -> (r: &ShortcutsDispatcher<H>)
        ensures
            r@ == self.shortcuts(),
    {
        &self.shortcut_dispatcher
    }

    pub fn get_action_runner(&self) -> (r: &ActionRunner<A>)
        ensures
            r@ == self.actions(),
    {
        &self.action_runner
    }

    pub fn get_config_store(&self) -> (r: &ConfigHelper<V>)
        ensures
            r@ == self.config(),
    {
        &self.config_helper
    }

    /// The namespace `<plugin id>.<key>` under which a plugin's setting lives.
    pub fn config_key(plugin: &MetaData, key: &str) -> (r: String)
        ensures
            r@ == scoped_key(plugin.spec_id(), key@),
    {
        let mut k = String::from_str(plugin.id());
        let dot = ".";
        proof {
            reveal_strlit(".");
        }
        k.append(dot);
        k.append(key);
        k
    }

    /// The plugin's setting `key`, stored as a leaf.
    pub fn get_config(&self, plugin: &MetaData, key: &str) -> (r: Option<&V>)
        ensures
            ({
                let es = self.config().entries;
                let i = crate::config::key_index(es, scoped_key(plugin.spec_id(), key@));
                &&& i < es.len() ==> (r matches Some(v) && *v == es[i].1)
                &&& i == es.len() ==> r is None
            }),
    {
        let k = Self::config_key(plugin, key);
        self.config_helper.get_raw_value(k.as_str())
    }

    /// The plugin's settings below `key`, nested at the dots into one
    /// document; `None` when nothing is stored below it.
    pub fn get_config_composite(&self, plugin: &MetaData, key: &str) -> (r: Option<ConfigNode<&V>>)
        ensures
            ({
                let cs = children_of(
                    self.config().entries,
                    child_prefix(scoped_key(plugin.spec_id(), key@)),
                );
                &&& r is None <==> cs.len() == 0
                &&& r matches Some(t) ==> t is Table && tree_ok(t) && leaves_from(t, cs) && (
                prefix_free(cs) ==> holds_exactly(t, cs))
            }),
    {
        let k = Self::config_key(plugin, key);
        self.config_helper.get_composite(k.as_str())
    }

    /// Stores the plugin's setting `key` and marks the configuration dirty.
    pub fn get_config_value(&mut self, plugin: &MetaData, key: &str, value: V)
        ensures
            final(self).config() == (crate::config::StoreView {
                entries: crate::config::set_entry(
                    old(self).config().entries,
                    scoped_key(plugin.spec_id(), key@),
                    value,
                ),
                dirty: true,
                ..old(self).config()
            }),
            final(self).commands() == old(self).commands(),
            final(self).shortcuts() == old(self).shortcuts(),
            final(self).actions() == old(self).actions(),
            old(self).wf() ==> final(self).wf(),
    {
        let k = Self::config_key(plugin, key);
        self.config_helper.set_raw_value(k.as_str(), value);
    }

    /// Starts a durable write of the configuration; see `ConfigHelper::begin_save`.
    pub fn begin_config_save(&mut self) -> (r: bool)
        ensures
            r == old(self).config().dirty,
            final(self).config() == (crate::config::StoreView { dirty: false, ..old(self).config() }),
            final(self).commands() == old(self).commands(),
            final(self).shortcuts() == old(self).shortcuts(),
            final(self).actions() == old(self).actions(),
            final(self).wf() == old(self).wf(),
    {
        self.config_helper.begin_save()
    }

    /// A durable write failed: the configuration stays dirty.
    pub fn config_save_failed(&mut self)
        ensures
            final(self).config() == (crate::config::StoreView { dirty: true, ..old(self).config() }),
            final(self).commands() == old(self).commands(),
            final(self).shortcuts() == old(self).shortcuts(),
            final(self).actions() == old(self).actions(),
            final(self).wf() == old(self).wf(),
    {
        self.config_helper.save_failed();
    }

    /// The boundary's answer for what a plugin handed back: nothing, one item,
    /// a list, or the plugin's domain error.
    pub fn finish_query(result: PluginResult) -> (r: Result<Results, Error>)
        ensures
            match query_answer(result) {
                Ok((n, items)) => r matches Ok(res) && res.total_count == n && res.items@ == items,
                Err(msg) => r matches Err(Error::Plugin(m)) && m@ == msg,
            },
    {
        match result {
            PluginResult::Null => Ok(Results { total_count: 0, items: Vec::new() }),
            PluginResult::ExtensionResult(e) => {
                let mut items = Vec::new();
                items.push(e);
                Ok(Results { total_count: 1, items })
            },
            PluginResult::Results(res) => Ok(res),
            PluginResult::PluginError(msg) => Err(Error::Plugin(msg)),
        }
    }

    /// Whether the core's own settings must be written anew: they were never
    /// initialised, or were written by another version.
    pub fn needs_defaults(initialised: bool, stored_version: &str, version: &str) -> (r: bool)
        ensures
            r == (!initialised || stored_version@ != version@),
    {
        if !initialised {
            return true;
        }
        let a = String::from_str(stored_version);
        let b = String::from_str(version);
        !(a == b)
    }

    /// The command `text` selects, with the context its walk collected.
    pub fn route_query(&self, text: &str) -> (r: Option<(&F, CommandContext)>)
        requires
            self.wf(),
        ensures
            match dispatch(self.commands(), text@) {
                None => r is None,
                Some((f, c)) => r matches Some((g, ctx)) && *g == f && ctx@ == c,
            },
    {
        self.command_dispatcher.run(String::from_str(text))
    }

    /// Answers one query by steps: `route_query` names the command, if any;
    /// the runner runs that callback and its answer goes through
    /// `finish_query`, and the scored dispatcher is not consulted. Only when
    /// no command matches does the scored dispatch run, with at most
    /// `QUERY_LIMIT` items; it never fails. What a callback answers is the
    /// plugin's, so the command branch's value is stated by those two steps.
    pub fn handle_query<R: CommandRunner<F> + ShortcutRunner<H, PluginResult>>(
        &self,
        text: &str,
        runner: &mut R,
    ) -> (r: Result<Results, Error>)
        requires
            self.wf(),
        ensures
            dispatch(self.commands(), text@) is None ==> exists|
                stage: DispatchStage,
                items: Seq<ScoredItem<PluginResult>>,
            |
                #[trigger] scored_outcome(self.shortcuts(), text@, Some(QUERY_LIMIT), stage, items)
                    && items.len() <= QUERY_LIMIT && answer_of(r, gathered(items)),
    {
        match self.route_query(text) {
            Some((f, ctx)) => {
                let plugin_result = runner.run_command(f, ctx);
                Self::finish_query(plugin_result)
            },
            None => {
                let shortcut = self.shortcut_dispatcher.run(text, runner, Some(QUERY_LIMIT));
                let ghost (stage, items) = (shortcut.stage, shortcut.items@);
                let r = Self::finish_query(PluginResult::from_shortcut(shortcut));
                assert(scored_outcome(self.shortcuts(), text@, Some(QUERY_LIMIT), stage, items));
                assert(answer_of(r, gathered(items)));
                r
            },
        }
    }

    /// The action registered under `id`; a missing id is no error.
    pub fn handle_action(&self, id: &str) -> (r: Option<&A>)
        ensures
            r is Some <==> self.actions().contains_key(id@),
            r matches Some(f) ==> *f == self.actions()[id@],
    {
        self.action_runner.get(id)
    }
}

} // verus!
