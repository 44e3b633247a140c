//! The error taxonomy of the engine.

use vstd::prelude::*;

verus! {

/// A typed failure of one lifecycle operation. Every operation either
/// succeeds with a summary value or returns exactly one of these.
#[derive(Clone, Debug)]
pub enum CoffeeError {
    /// The named plugin is in no remote's manifest (or not installed,
    /// for operations on installed plugins).
    PluginNotFound(String),
    /// The named plugin is advertised by more than one remote; the
    /// second field lists the local names of all advertising remotes.
    AmbiguousPlugin(String, Vec<String>),
    /// The named plugin is already present in the plugin index.
    AlreadyInstalled(String),
    /// A remote with this local name is already registered.
    DuplicateRemote(String),
    /// No remote with this local name is registered.
    RemoteNotFound(String),
    /// The remote still has installed plugins and no force flag was set.
    RemoteInUse(String),
    /// The build collaborator reported a failure; the field carries its
    /// output.
    BuildFailed(String),
    /// The fetch collaborator reported a failure; the field carries the
    /// cause.
    FetchFailed(String),
    /// The configuration file could not be patched; the field carries
    /// the cause.
    ConfigPatchFailed(String),
}

impl CoffeeError {
    /// A short human-readable description of the failure.
    pub fn message(&self) -> String {
        match self {
            CoffeeError::PluginNotFound(n) => {
                let m = String::new();
                m.concat("plugin not found: ").concat(n.as_str())
            },
            CoffeeError::AmbiguousPlugin(n, _) => {
                let m = String::new();
                m.concat("plugin advertised by several remotes: ").concat(n.as_str())
            },
            CoffeeError::AlreadyInstalled(n) => {
                let m = String::new();
                m.concat("plugin already installed: ").concat(n.as_str())
            },
            CoffeeError::DuplicateRemote(n) => {
                let m = String::new();
                m.concat("remote already registered: ").concat(n.as_str())
            },
            CoffeeError::RemoteNotFound(n) => {
                let m = String::new();
                m.concat("remote not found: ").concat(n.as_str())
            },
            CoffeeError::RemoteInUse(n) => {
                let m = String::new();
                m.concat("remote still has installed plugins: ").concat(n.as_str())
            },
            CoffeeError::BuildFailed(out) => {
                let m = String::new();
                m.concat("build failed: ").concat(out.as_str())
            },
            CoffeeError::FetchFailed(cause) => {
                let m = String::new();
                m.concat("fetch failed: ").concat(cause.as_str())
            },
            CoffeeError::ConfigPatchFailed(cause) => {
                let m = String::new();
                m.concat("config patch failed: ").concat(cause.as_str())
            },
        }
    }
}

} // verus!
