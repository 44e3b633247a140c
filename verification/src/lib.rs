//! Plugin lifecycle and remote-state engine for a Lightning node daemon.
//!
//! The engine keeps three stores in agreement: a registry of remote
//! repositories, an index of installed plugins, and the daemon's
//! configuration file (of which only a demarcated block of plugin-load
//! directives is managed here). External collaborators — fetching a
//! source tree, building it, patching the file on disk, executing a
//! payment — are represented by outcome values that the caller passes
//! in, so every decision the engine takes is verified for every
//! possible collaborator behaviour.

use vstd::prelude::*;

pub mod coffee;
pub mod config;
pub mod errors;
pub mod laws;
pub mod nurse;
pub mod types;

verus! {

/// A lifecycle operation requested by the operator, as dispatched by
/// the command-line front end.
#[derive(Clone, Debug)]
pub enum CoffeeOperation {
    /// Install(plugin name, verbose run, dynamic installation)
    Install(String, bool, bool),
    /// List
    List,
    /// Upgrade(name of the repository, verbose run)
    Upgrade(String, bool),
    Remove(String),
    /// Remote(name repository, url of the repository)
    Remote(Option<RemoteAction>, Option<String>),
    /// Setup(core lightning root path)
    Setup(String),
    /// Teardown(core lightning root path)
    Teardown(String),
    Show(String),
    /// Search(plugin name)
    Search(String),
    Nurse(bool),
    /// Tip operation
    ///
    /// (plugin_name, amount_msat)
    Tip(String, u64),
    /// Disable a plugin(plugin name)
    Disable(String),
    /// Enable a plugin(plugin name)
    Enable(String),
}

/// A sub-action of the `remote` operation.
#[derive(Clone, Debug)]
pub enum RemoteAction {
    Add(String, String),
    Rm(String),
    Inspect(String),
    List,
}

/// Arguments a front end must provide to drive the engine.
pub trait CoffeeArgs: Send + Sync {
    /// return the command that coffee needs to execute
    fn command(&self) -> CoffeeOperation;
    /// return the conf
    fn conf(&self) -> Option<String>;
    /// return the network
    fn network(&self) -> Option<String>;
    /// return the data dir
    fn data_dir(&self) -> Option<String>;
    /// return the skip verify flag
    fn skip_verify(&self) -> bool;
}

} // verus!
