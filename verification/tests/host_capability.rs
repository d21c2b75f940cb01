use aipo::host::capability::{Capability, CapabilityError, CapabilitySet, CANON_CAPABILITIES};
use aipo::host::fault::DiagnosticCode;

fn capability(path: &str) -> Capability {
    Capability::parse(path).expect("test capability is valid")
}

#[test]
fn test_parse_rejects_malformed_paths() {
    assert_eq!(Capability::parse(""), Err(CapabilityError::Empty));
    assert_eq!(
        Capability::parse("Clock.wall"),
        Err(CapabilityError::InvalidSegment("Clock".to_string()))
    );
    assert_eq!(
        Capability::parse("clock..wall"),
        Err(CapabilityError::InvalidSegment(String::new()))
    );
    assert!(Capability::parse("poppy.ecs-scope").is_ok());
}

#[test]
fn test_namespace_grants_descendants_not_siblings() {
    let clock = capability("clock");
    assert!(clock.grants(&capability("clock.wall")));
    assert!(clock.grants(&capability("clock.monotonic")));
    assert!(clock.grants(&clock));
    assert!(!clock.grants(&capability("crypto.random")));
    assert!(!clock.grants(&capability("clockwork")));
    assert!(!capability("clock.wall").grants(&clock));
}

#[test]
fn test_deny_by_default() {
    let set = CapabilitySet::none();
    assert!(!set.allows(&capability("clock.wall")));
    assert!(set.is_empty());
    let denied = set.require(&capability("clock.wall"), "time.now");
    assert_eq!(
        denied.expect_err("denied").code(),
        DiagnosticCode::AIPO_RT_CAPABILITY_DENIED
    );
}

#[test]
fn test_grant_is_minimal_and_covers_descendants() {
    let mut set = CapabilitySet::none();
    assert!(set.grant(capability("clock.wall")));
    assert!(!set.grant(capability("clock.wall")));
    assert!(set.allows(&capability("clock.wall")));
    assert!(!set.allows(&capability("clock.monotonic")));

    // A broader grant subsumes the narrower one instead of storing both.
    assert!(set.grant(capability("clock")));
    assert_eq!(set.len(), 1);
    assert!(set.allows(&capability("clock.monotonic")));
}

#[test]
fn test_narrow_never_widens() {
    let declared = CapabilitySet::from_capabilities(vec![
        capability("clock"),
        capability("filesystem.read"),
        capability("network.http"),
    ]);
    let policy =
        CapabilitySet::from_capabilities(vec![capability("clock.wall"), capability("filesystem.read")]);

    let effective = declared.narrow(&policy);
    // `filesystem.read` is allowed by both, so it survives.
    assert!(effective.allows(&capability("filesystem.read")));
    // `network.http` is not in the policy, so it is gone.
    assert!(!effective.allows(&capability("network.http")));
    // A broad `clock` grant the policy only partially allows is dropped, never split.
    assert!(!effective.allows(&capability("clock")));

    let widening = policy.narrow(&declared);
    assert!(!widening.allows(&capability("network.http")));
}

#[test]
fn test_revoke_removes_only_the_exact_grant() {
    let mut set =
        CapabilitySet::from_capabilities(vec![capability("clock"), capability("filesystem.read")]);
    assert!(set.revoke(&capability("clock")));
    assert!(!set.allows(&capability("clock.wall")));
    assert!(set.allows(&capability("filesystem.read")));
    assert!(!set.revoke(&capability("clock")));
}

#[test]
fn test_require_passes_when_an_ancestor_is_granted() {
    let set = CapabilitySet::from_capabilities(vec![capability("clock")]);
    assert!(
        set.require(&capability("clock.monotonic"), "time.monotonic")
            .is_ok()
    );
}

#[test]
fn test_canon_hierarchy_is_well_formed() {
    for path in CANON_CAPABILITIES {
        let capability = capability(path);
        assert_eq!(capability.name(), path);
    }
}

#[test]
fn parent_names_the_enclosing_namespace() {
    assert_eq!(capability("clock.wall").parent(), Some(capability("clock")));
    assert_eq!(capability("a.b.c").parent(), Some(capability("a.b")));
    assert_eq!(capability("clock").parent(), None);
}

#[test]
fn iteration_is_in_path_order_and_minimal() {
    let set = CapabilitySet::from_capabilities(vec![
        capability("network.http"),
        capability("clock.wall"),
        capability("clock"),
        capability("filesystem.read"),
    ]);
    let names: Vec<&str> = set.iter().map(|c| c.name()).collect();
    assert_eq!(names, vec!["clock", "filesystem.read", "network.http"]);
}

#[test]
fn capability_error_messages_name_the_segment() {
    assert_eq!(CapabilityError::Empty.to_string(), "capability path is empty");
    assert_eq!(
        CapabilityError::InvalidSegment("Clock".to_string()).to_string(),
        "capability segment 'Clock' must match [a-z][a-z0-9_-]*"
    );
}

#[test]
fn trailing_and_leading_dots_are_rejected() {
    assert_eq!(
        Capability::parse("clock."),
        Err(CapabilityError::InvalidSegment(String::new()))
    );
    assert_eq!(
        Capability::parse(".clock"),
        Err(CapabilityError::InvalidSegment(String::new()))
    );
    assert_eq!(
        Capability::parse("clock.9x"),
        Err(CapabilityError::InvalidSegment("9x".to_string()))
    );
}
