//! Module representation and lifecycle state in the Aipo runtime.
use vstd::prelude::*;

verus! {

/// Lifecycle state of a module during a runtime execution.
#[derive(Debug, Clone, PartialEq, Eq)]
pub enum ModuleState {
    /// Discovered or registered, awaiting initialization.
    Uninitialized,
    /// Currently undergoing top-level evaluation (used for cycle detection).
    Initializing,
    /// Successfully evaluated; exports are finalized.
    Initialized,
    /// Failed evaluation; published nothing.
    Failed(String),
}

/// A loaded module record within the runtime graph.
#[derive(Debug)]
pub struct ModuleRecord {
    /// Canonical module path (e.g. `game.player` or `math`).
    pub path: String,
    /// Canonical paths of dependencies imported by this module.
    pub dependencies: Vec<String>,
    /// Compiled bytecode image of the module, when it was compiled from Aipo source.
    pub bytecode: Option<Vec<u8>>,
    /// Current lifecycle state.
    pub state: ModuleState,
    /// Exported symbols, each with the name it is bound to.
    pub exports: Vec<(String, String)>,
}

impl ModuleRecord {
    /// Creates a new uninitialized module record with no exports.
    ///
    /// The path is used verbatim as the graph key; [`crate::runtime::graph::ModuleGraph::register`]
    /// rejects empty, untrimmed or duplicate paths.
    pub fn new(path: &str, dependencies: Vec<String>, bytecode: Option<Vec<u8>>) -> (record: ModuleRecord)
        ensures
            record.path@ == path@,
            record.dependencies == dependencies,
            record.bytecode == bytecode,
            record.state == ModuleState::Uninitialized,
            record.exports@.len() == 0,
    {
        ModuleRecord {
            path: String::from_str(path),
            dependencies,
            bytecode,
            state: ModuleState::Uninitialized,
            exports: Vec::new(),
        }
    }

    /// Whether the module has successfully completed initialization.
    pub fn is_initialized(&self) -> (done: bool)
        ensures
            done == (self.state == ModuleState::Initialized),
    {
        match self.state {
            ModuleState::Initialized => true,
            _ => false,
        }
    }
}

} // verus!
