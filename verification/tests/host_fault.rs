use aipo::host::capability::Capability;
use aipo::host::fault::{DiagnosticCode, HostFault, SchemaProblem};
use aipo::host::handle::HandleTable;

/// A handle that addresses a real slot, for the tests that only need the identity.
fn sample_handle() -> aipo::host::handle::Handle {
    let mut table: HandleTable<u8> = HandleTable::new();
    table.insert(1)
}

#[test]
fn test_capability_denial_carries_operation_and_capability() {
    let fault = HostFault::CapabilityDenied {
        capability: Capability::parse("clock.wall").expect("valid"),
        operation: "time.now".to_string(),
    };
    assert_eq!(fault.code(), DiagnosticCode::AIPO_RT_CAPABILITY_DENIED);
    let message = fault.message();
    assert!(message.contains("time.now"), "{message}");
    assert!(message.contains("clock.wall"), "{message}");
}

#[test]
fn test_display_includes_the_code() {
    let fault = HostFault::ScopeEscape {
        handle: sample_handle(),
        binding: "held".to_string(),
    };
    let rendered = fault.to_string();
    assert!(rendered.starts_with("AIPO_RT_SCOPE_ESCAPE"), "{rendered}");
}

#[test]
fn test_schema_fault_lists_every_problem() {
    let fault = HostFault::Schema {
        problems: vec![
            SchemaProblem::new("host", "name is empty"),
            SchemaProblem::new("mod.f", "duplicate"),
        ],
    };
    let message = fault.message();
    assert!(message.contains("host: name is empty"), "{message}");
    assert!(message.contains("mod.f: duplicate"), "{message}");
}

#[test]
fn stale_handle_message_names_slot_and_generation() {
    let mut table: HandleTable<u8> = HandleTable::new();
    let handle = table.insert(4);
    table.remove(handle);
    let fault = table.require(handle).expect_err("stale");
    assert_eq!(
        fault.to_string(),
        "AIPO_RT_STALE_HANDLE: handle(0:1) is stale: the host object it referenced was released, so it may not be used"
    );
}

#[test]
fn schema_fault_joins_problems_with_semicolons() {
    let fault = HostFault::Schema {
        problems: vec![
            SchemaProblem::new("a", "x"),
            SchemaProblem::new("b", "y"),
        ],
    };
    assert_eq!(
        fault.message(),
        "host surface description is invalid: a: x; b: y"
    );
    assert_eq!(fault.code().as_str(), "AIPO_RT_INVALID_SCHEMA");
}
