//! Runtime error taxonomy and its diagnostics mapping for modules and the registry.
use vstd::prelude::*;

use crate::host::fault::DiagnosticCode;
use vstd::string::*;

verus! {

/// Errors arising during module resolution, dependency cycle checks, or initialization.
#[derive(Debug, Clone, PartialEq, Eq)]
pub enum RuntimeError {
    /// A requested module cannot be located in the module registry.
    ModuleNotFound {
        /// Canonical path of the requested module.
        name: String,
    },
    /// A circular import dependency chain was detected.
    CyclicDependency {
        /// Ordered sequence of module paths forming the cycle.
        cycle: Vec<String>,
    },
    /// A requested export is missing from the target module.
    ExportNotFound {
        /// Module canonical path.
        module: String,
        /// Name of the missing exported symbol.
        symbol: String,
    },
    /// Module initialization failed during execution.
    InitializationFailed {
        /// Module canonical path.
        module: String,
        /// Failure reason.
        reason: String,
    },
}

/// Texts joined with `" -> "`.
pub open spec fn chain_text(parts: Seq<Seq<char>>) -> Seq<char>
    decreases parts.len(),
{
    if parts.len() == 0 {
        Seq::empty()
    } else if parts.len() == 1 {
        parts[0]
    } else {
        chain_text(parts.drop_last()) + " -> "@ + parts.last()
    }
}

/// The message of a runtime error.
pub open spec fn runtime_error_text(error: RuntimeError) -> Seq<char> {
    match error {
        RuntimeError::ModuleNotFound { name } => "runtime error [AIPO_SEM_UNKNOWN_MODULE]: module '"@ + name@
            + "' could not be resolved"@,
        RuntimeError::CyclicDependency { cycle } => "runtime error [AIPO_SEM_IMPORT_CYCLE]: circular module dependency: "@
            + chain_text(cycle@.map_values(|s: String| s@)),
        RuntimeError::ExportNotFound { module, symbol } => "runtime error [AIPO_SEM_EXPORT_UNKNOWN]: module '"@ + module@
            + "' has no export '"@ + symbol@ + "'"@,
        RuntimeError::InitializationFailed { module, reason } => "runtime error [AIPO_RT_MODULE_INIT_FAILED]: initialization of module '"@
            + module@ + "' failed: "@ + reason@,
    }
}

/// The texts joined with `" -> "`.
fn join_chain(parts: &Vec<String>) -> (text: String)
    ensures
        text@ == chain_text(parts@.map_values(|s: String| s@)),
{
    let ghost all = parts@.map_values(|s: String| s@);
    let mut text = String::new();
    let mut i: usize = 0;
    while i < parts.len()
        invariant
            all == parts@.map_values(|s: String| s@),
            i <= parts@.len(),
            text@ == chain_text(all.take(i as int)),
        decreases parts.len() - i,
    {
        proof {
            assert(all.take(i + 1).drop_last() =~= all.take(i as int));
            assert(all.take(i + 1).last() == parts@[i as int]@);
        }
        if i > 0 {
            text = text.concat(" -> ");
        } else {
            assert(chain_text(all.take(0)) =~= Seq::<char>::empty());
        }
        text = text.concat(parts[i].as_str());
        assert(text@ =~= chain_text(all.take(i + 1)));
        i = i + 1;
    }
    assert(all.take(parts@.len() as int) =~= all);
    text
}

impl RuntimeError {
    /// Maps runtime errors to stable diagnostic codes.
    pub fn diagnostic_code(&self) -> (code: DiagnosticCode)
        ensures
            code == match *self {
                RuntimeError::ModuleNotFound { .. } => DiagnosticCode::AIPO_SEM_UNKNOWN_MODULE,
                RuntimeError::CyclicDependency { .. } => DiagnosticCode::AIPO_SEM_IMPORT_CYCLE,
                RuntimeError::ExportNotFound { .. } => DiagnosticCode::AIPO_SEM_EXPORT_UNKNOWN,
                RuntimeError::InitializationFailed { .. } => DiagnosticCode::AIPO_RT_MODULE_INIT_FAILED,
            },
    {
        match self {
            RuntimeError::ModuleNotFound { .. } => DiagnosticCode::AIPO_SEM_UNKNOWN_MODULE,
            RuntimeError::CyclicDependency { .. } => DiagnosticCode::AIPO_SEM_IMPORT_CYCLE,
            RuntimeError::ExportNotFound { .. } => DiagnosticCode::AIPO_SEM_EXPORT_UNKNOWN,
            RuntimeError::InitializationFailed { .. } => DiagnosticCode::AIPO_RT_MODULE_INIT_FAILED,
        }
    }

    /// The human-readable message, which names the diagnostic code.
    pub fn to_string(&self) -> (text: String)
        ensures
            text@ == runtime_error_text(*self),
    {
        match self {
            RuntimeError::ModuleNotFound { name } => String::from_str("runtime error [AIPO_SEM_UNKNOWN_MODULE]: module '")
                .concat(name.as_str()).concat("' could not be resolved"),
            RuntimeError::CyclicDependency { cycle } => {
                let joined = join_chain(cycle);
                String::from_str("runtime error [AIPO_SEM_IMPORT_CYCLE]: circular module dependency: ").concat(joined.as_str())
            },
            RuntimeError::ExportNotFound { module, symbol } => String::from_str("runtime error [AIPO_SEM_EXPORT_UNKNOWN]: module '")
                .concat(module.as_str()).concat("' has no export '").concat(symbol.as_str()).concat("'"),
            RuntimeError::InitializationFailed { module, reason } => String::from_str(
                "runtime error [AIPO_RT_MODULE_INIT_FAILED]: initialization of module '",
            ).concat(module.as_str()).concat("' failed: ").concat(reason.as_str()),
        }
    }
}

} // verus!
