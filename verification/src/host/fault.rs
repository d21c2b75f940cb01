//! Host-boundary faults, each with one stable diagnostic code.
use vstd::prelude::*;

use crate::host::capability::Capability;
use crate::host::handle::Handle;
use crate::text::{decimal, push_decimal};
use vstd::string::*;

verus! {

/// Stable diagnostic codes of the runtime faults raised at the host boundary.
#[allow(non_camel_case_types)]
#[derive(Debug, Clone, Copy, PartialEq, Eq, Hash)]
pub enum DiagnosticCode {
    /// A host operation needs a capability the profile does not grant.
    AIPO_RT_CAPABILITY_DENIED,
    /// A handle addressed a released or reused slot.
    AIPO_RT_STALE_HANDLE,
    /// A scoped binding escaped its scope.
    AIPO_RT_SCOPE_ESCAPE,
    /// A value does not satisfy the contract it is crossing.
    AIPO_RT_TYPE_MISMATCH,
    /// A host surface description is malformed.
    AIPO_RT_INVALID_SCHEMA,
    /// An imported module could not be resolved.
    AIPO_SEM_UNKNOWN_MODULE,
    /// Module imports form a cycle.
    AIPO_SEM_IMPORT_CYCLE,
    /// An imported symbol is not exported by its module.
    AIPO_SEM_EXPORT_UNKNOWN,
    /// A module's top-level evaluation failed.
    AIPO_RT_MODULE_INIT_FAILED,
}

/// The spelling of a diagnostic code.
pub open spec fn code_text(code: DiagnosticCode) -> Seq<char> {
    match code {
        DiagnosticCode::AIPO_RT_CAPABILITY_DENIED => "AIPO_RT_CAPABILITY_DENIED"@,
        DiagnosticCode::AIPO_RT_STALE_HANDLE => "AIPO_RT_STALE_HANDLE"@,
        DiagnosticCode::AIPO_RT_SCOPE_ESCAPE => "AIPO_RT_SCOPE_ESCAPE"@,
        DiagnosticCode::AIPO_RT_TYPE_MISMATCH => "AIPO_RT_TYPE_MISMATCH"@,
        DiagnosticCode::AIPO_RT_INVALID_SCHEMA => "AIPO_RT_INVALID_SCHEMA"@,
        DiagnosticCode::AIPO_SEM_UNKNOWN_MODULE => "AIPO_SEM_UNKNOWN_MODULE"@,
        DiagnosticCode::AIPO_SEM_IMPORT_CYCLE => "AIPO_SEM_IMPORT_CYCLE"@,
        DiagnosticCode::AIPO_SEM_EXPORT_UNKNOWN => "AIPO_SEM_EXPORT_UNKNOWN"@,
        DiagnosticCode::AIPO_RT_MODULE_INIT_FAILED => "AIPO_RT_MODULE_INIT_FAILED"@,
    }
}

impl DiagnosticCode {
    /// The stable spelling of the code.
    pub fn as_str(&self) -> (text: &'static str)
        ensures
            text@ == code_text(*self),
    {
        match self {
            DiagnosticCode::AIPO_RT_CAPABILITY_DENIED => "AIPO_RT_CAPABILITY_DENIED",
            DiagnosticCode::AIPO_RT_STALE_HANDLE => "AIPO_RT_STALE_HANDLE",
            DiagnosticCode::AIPO_RT_SCOPE_ESCAPE => "AIPO_RT_SCOPE_ESCAPE",
            DiagnosticCode::AIPO_RT_TYPE_MISMATCH => "AIPO_RT_TYPE_MISMATCH",
            DiagnosticCode::AIPO_RT_INVALID_SCHEMA => "AIPO_RT_INVALID_SCHEMA",
            DiagnosticCode::AIPO_SEM_UNKNOWN_MODULE => "AIPO_SEM_UNKNOWN_MODULE",
            DiagnosticCode::AIPO_SEM_IMPORT_CYCLE => "AIPO_SEM_IMPORT_CYCLE",
            DiagnosticCode::AIPO_SEM_EXPORT_UNKNOWN => "AIPO_SEM_EXPORT_UNKNOWN",
            DiagnosticCode::AIPO_RT_MODULE_INIT_FAILED => "AIPO_RT_MODULE_INIT_FAILED",
        }
    }
}

/// One inconsistency inside a host surface description.
#[derive(Debug, Clone, PartialEq, Eq)]
pub struct SchemaProblem {
    /// Where the problem is, as a dotted path (`module.function(param)`).
    pub path: String,
    /// What is wrong.
    pub message: String,
}

/// `path: message`.
pub open spec fn problem_text(path: Seq<char>, message: Seq<char>) -> Seq<char> {
    path + ": "@ + message
}

impl SchemaProblem {
    /// Builds a problem report.
    pub fn new(path: &str, message: &str) -> (problem: SchemaProblem)
        ensures
            problem.path@ == path@,
            problem.message@ == message@,
    {
        SchemaProblem { path: String::from_str(path), message: String::from_str(message) }
    }

    /// `path: message`, as the problem is displayed.
    pub fn to_string(&self) -> (text: String)
        ensures
            text@ == problem_text(self.path@, self.message@),
    {
        let text = self.path.clone();
        let text = text.concat(": ");
        text.concat(self.message.as_str())
    }
}

/// Something the host boundary refused to do.
#[derive(Debug, PartialEq, Eq)]
pub enum HostFault {
    /// The operation needs a capability the running profile does not grant.
    CapabilityDenied {
        /// The capability that was required.
        capability: Capability,
        /// The host operation that required it, as the script would name it.
        operation: String,
    },
    /// A handle addressed a slot that was released or reused.
    StaleHandle {
        /// The handle that no longer addresses a live value.
        handle: Handle,
    },
    /// A binding created inside a scoped callback escaped the scope it belongs to.
    ScopeEscape {
        /// The handle that tried to escape.
        handle: Handle,
        /// The binding name or publication site the host knows it by.
        binding: String,
    },
    /// A value offered at the boundary cannot satisfy the contract it is crossing.
    InvalidHostValue {
        /// What was wrong with the value.
        detail: String,
    },
    /// A host surface description is internally inconsistent.
    Schema {
        /// The problems found, each with its path inside the description.
        problems: Vec<SchemaProblem>,
    },
}

/// The code of each fault.
pub open spec fn fault_code(fault: HostFault) -> DiagnosticCode {
    match fault {
        HostFault::CapabilityDenied { .. } => DiagnosticCode::AIPO_RT_CAPABILITY_DENIED,
        HostFault::StaleHandle { .. } => DiagnosticCode::AIPO_RT_STALE_HANDLE,
        HostFault::ScopeEscape { .. } => DiagnosticCode::AIPO_RT_SCOPE_ESCAPE,
        HostFault::InvalidHostValue { .. } => DiagnosticCode::AIPO_RT_TYPE_MISMATCH,
        HostFault::Schema { .. } => DiagnosticCode::AIPO_RT_INVALID_SCHEMA,
    }
}

/// `handle(index:generation)`.
pub open spec fn handle_text(handle: Handle) -> Seq<char> {
    "handle("@ + decimal(handle.slot()) + ":"@ + decimal(handle.stamp()) + ")"@
}

/// The problems joined with `"; "`.
pub open spec fn problems_text(problems: Seq<SchemaProblem>) -> Seq<char>
    decreases problems.len(),
{
    if problems.len() == 0 {
        Seq::empty()
    } else if problems.len() == 1 {
        problem_text(problems[0].path@, problems[0].message@)
    } else {
        problems_text(problems.drop_last()) + "; "@ + problem_text(
            problems.last().path@,
            problems.last().message@,
        )
    }
}

/// The message of each fault.
pub open spec fn fault_message(fault: HostFault) -> Seq<char> {
    match fault {
        HostFault::CapabilityDenied { capability, operation } => "operation '"@ + operation@
            + "' requires capability '"@ + capability@
            + "', which this host does not grant"@,
        HostFault::StaleHandle { handle } => handle_text(handle)
            + " is stale: the host object it referenced was released, so it may not be used"@,
        HostFault::ScopeEscape { handle, binding } => handle_text(handle) + " (binding '"@
            + binding@ + "') was created in a scoped host callback and cannot leave it"@,
        HostFault::InvalidHostValue { detail } => "host value does not satisfy its contract: "@
            + detail@,
        HostFault::Schema { problems } => "host surface description is invalid: "@
            + problems_text(problems@),
    }
}

/// Renders `handle(index:generation)`.
pub fn render_handle(handle: Handle) -> (text: String)
    ensures
        text@ == handle_text(handle),
{
    let mut text = String::from_str("handle(");
    push_decimal(&mut text, handle.index() as u64);
    let mut text = text.concat(":");
    push_decimal(&mut text, handle.generation() as u64);
    let text = text.concat(")");
    assert(text@ =~= handle_text(handle));
    text
}

impl HostFault {
    /// The stable diagnostic code for this fault.
    pub fn code(&self) -> (code: DiagnosticCode)
        ensures
            code == fault_code(*self),
    {
        match self {
            HostFault::CapabilityDenied { .. } => DiagnosticCode::AIPO_RT_CAPABILITY_DENIED,
            HostFault::StaleHandle { .. } => DiagnosticCode::AIPO_RT_STALE_HANDLE,
            HostFault::ScopeEscape { .. } => DiagnosticCode::AIPO_RT_SCOPE_ESCAPE,
            HostFault::InvalidHostValue { .. } => DiagnosticCode::AIPO_RT_TYPE_MISMATCH,
            HostFault::Schema { .. } => DiagnosticCode::AIPO_RT_INVALID_SCHEMA,
        }
    }

    /// The human-readable message, carrying the capability and operation context.
    pub fn message(&self) -> (text: String)
        ensures
            text@ == fault_message(*self),
    {
        match self {
            HostFault::CapabilityDenied { capability, operation } => {
                let text = String::from_str("operation '");
                let text = text.concat(operation.as_str());
                let text = text.concat("' requires capability '");
                let text = text.concat(capability.name());
                text.concat("', which this host does not grant")
            },
            HostFault::StaleHandle { handle } => {
                let text = render_handle(*handle);
                text.concat(
                    " is stale: the host object it referenced was released, so it may not be used",
                )
            },
            HostFault::ScopeEscape { handle, binding } => {
                let text = render_handle(*handle);
                let text = text.concat(" (binding '");
                let text = text.concat(binding.as_str());
                text.concat("') was created in a scoped host callback and cannot leave it")
            },
            HostFault::InvalidHostValue { detail } => {
                let text = String::from_str("host value does not satisfy its contract: ");
                text.concat(detail.as_str())
            },
            HostFault::Schema { problems } => {
                let text = String::from_str("host surface description is invalid: ");
                let joined = join_problems(problems);
                text.concat(joined.as_str())
            },
        }
    }

    /// `code: message`, as the fault is displayed.
    pub fn to_string(&self) -> (text: String)
        ensures
            text@ == code_text(fault_code(*self)) + ": "@ + fault_message(*self),
    {
        let code = self.code();
        let text = String::from_str(code.as_str());
        let text = text.concat(": ");
        let message = self.message();
        text.concat(message.as_str())
    }
}

/// The problems joined with `"; "`.
fn join_problems(problems: &Vec<SchemaProblem>) -> (text: String)
    ensures
        text@ == problems_text(problems@),
{
    let mut text = String::new();
    let mut i: usize = 0;
    while i < problems.len()
        invariant
            i <= problems@.len(),
            text@ == problems_text(problems@.take(i as int)),
        decreases problems.len() - i,
    {
        let item = problems[i].to_string();
        assert(problems@.take(i + 1).drop_last() =~= problems@.take(i as int));
        if i == 0 {
            text = item;
        } else {
            text = text.concat("; ");
            text = text.concat(item.as_str());
        }
        i = i + 1;
    }
    assert(problems@.take(i as int) =~= problems@);
    text
}

} // verus!
