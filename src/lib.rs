//! Backend core of a quick launcher: a command grammar dispatcher, a tiered
//! scored query dispatcher, an action registry, a hierarchical configuration
//! store, the plugin lifecycle, and the reference-counted slot that holds the
//! process-wide core.
use vstd::prelude::*;

pub mod action_runner;
pub mod command_tree;
pub mod config;
pub mod controller;
pub mod extension;
pub mod lifecycle;
pub mod shortcut;
pub mod text;

verus! {

} // verus!
