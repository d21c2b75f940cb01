use aipo::package::coordinate::PackageId;
use aipo::package::digest::ContentDigest;
use aipo::package::error::ResolveError;
use aipo::package::lock::PackageSource;
use aipo::package::manifest::{Dependency, Manifest};
use aipo::package::resolver::{
    is_safe_entry_path, resolve_manifests, resolve_package_inputs, PackageInput,
};

fn coordinate(value: &str) -> PackageId {
    PackageId::parse(value).expect("test coordinate")
}

fn package_input(
    name: &str,
    version: &str,
    dependencies: Vec<Dependency>,
    capabilities: Vec<String>,
    entry_bytes: &[u8],
) -> PackageInput {
    let mut manifest =
        Manifest::new(coordinate(name), version, "main").expect("test manifest is valid");
    manifest.dependencies = dependencies;
    manifest.capabilities = capabilities;
    manifest.validate().expect("test manifest validates");
    let mut input = PackageInput::from_manifest(manifest, entry_bytes.to_vec())
        .expect("test input is valid");
    input.source = PackageSource::Path { path: format!("../{name}") };
    input
}

#[test]
fn in_memory_resolution_is_topological_and_repeatable() {
    let root = package_input(
        "acme.root",
        "1.0.0",
        vec![
            Dependency::new(coordinate("acme.zeta"), "../zeta"),
            Dependency::new(coordinate("acme.alpha"), "../alpha"),
        ],
        Vec::new(),
        b"root",
    );
    let alpha = package_input("acme.alpha", "1.0.0", Vec::new(), Vec::new(), b"alpha");
    let zeta = package_input("acme.zeta", "1.0.0", Vec::new(), Vec::new(), b"zeta");
    let packages = vec![alpha, zeta];

    let first = resolve_manifests(root.duplicate(), &packages).expect("graph resolves");
    let second = resolve_manifests(root, &packages).expect("graph resolves");
    assert_eq!(format!("{first:?}"), format!("{second:?}"));
    assert_eq!(
        first.topological_order().iter().map(|id| id.to_string()).collect::<Vec<_>>(),
        vec!["acme.alpha", "acme.zeta", "acme.root"]
    );
}

#[test]
fn in_memory_resolution_reports_missing_and_cyclic_dependencies() {
    let missing_root = package_input(
        "acme.root",
        "1.0.0",
        vec![Dependency::new(coordinate("acme.missing"), "../missing")],
        Vec::new(),
        b"root",
    );
    let error = resolve_package_inputs(missing_root, Vec::new()).expect_err("missing dependency fails");
    assert!(matches!(error, ResolveError::MissingDependency { .. }));

    let root = package_input(
        "acme.root",
        "1.0.0",
        vec![Dependency::new(coordinate("acme.cycle"), "../cycle")],
        Vec::new(),
        b"root",
    );
    let cycle = package_input(
        "acme.cycle",
        "1.0.0",
        vec![Dependency::new(coordinate("acme.root"), "../root")],
        Vec::new(),
        b"cycle",
    );
    let error = resolve_package_inputs(root, vec![cycle]).expect_err("cycle fails");
    assert!(matches!(error, ResolveError::DependencyCycle { .. }));
}

#[test]
fn in_memory_resolution_detects_duplicate_coordinates_and_version_conflicts() {
    let root = package_input("acme.root", "1.0.0", Vec::new(), Vec::new(), b"root");
    let duplicate = package_input("acme.root", "1.0.0", Vec::new(), Vec::new(), b"other")
        .with_source(PackageSource::Path { path: "../other".to_string() });
    let error = resolve_package_inputs(root.duplicate(), vec![duplicate])
        .expect_err("duplicate coordinate fails");
    assert!(matches!(error, ResolveError::DuplicateCoordinate { .. }));

    let dependent = package_input(
        "acme.dependent",
        "1.0.0",
        vec![Dependency::new(coordinate("acme.dep"), "../dep").with_version("2.0.0")],
        Vec::new(),
        b"dependent",
    );
    let dependency = package_input("acme.dep", "1.0.0", Vec::new(), Vec::new(), b"dep");
    let error = resolve_package_inputs(dependent, vec![dependency]).expect_err("version conflict fails");
    assert!(matches!(error, ResolveError::VersionConflict { .. }));

    let build_dependent = package_input(
        "acme.build_dependent",
        "1.0.0",
        vec![Dependency::new(coordinate("acme.dep"), "../dep").with_version("1.0.0+build.1")],
        Vec::new(),
        b"dependent",
    );
    let build_dependency = package_input("acme.dep", "1.0.0", Vec::new(), Vec::new(), b"dep");
    let error = resolve_package_inputs(build_dependent, vec![build_dependency])
        .expect_err("textual version conflict fails");
    assert!(matches!(error, ResolveError::VersionConflict { .. }));
}

#[test]
fn capability_upper_bound_rejects_transitive_widening() {
    let root = package_input(
        "acme.root",
        "1.0.0",
        vec![Dependency::new(coordinate("acme.dep"), "../dep")],
        vec!["clock.wall".to_string()],
        b"root",
    );
    let dependency = package_input(
        "acme.dep",
        "1.0.0",
        Vec::new(),
        vec!["clock.monotonic".to_string()],
        b"dep",
    );
    let error = resolve_package_inputs(root, vec![dependency]).expect_err("capability widening fails");
    assert!(matches!(error, ResolveError::CapabilityLimitExceeded { .. }));
}

#[test]
fn depth_first_order_follows_canonical_dependency_order() {
    // root -> [zeta, alpha] (canonically alpha, zeta); alpha -> gamma.
    let root = package_input(
        "acme.root",
        "1.0.0",
        vec![
            Dependency::new(coordinate("acme.zeta"), "../zeta"),
            Dependency::new(coordinate("acme.alpha"), "../alpha"),
        ],
        vec!["clock".to_string()],
        b"root",
    );
    let alpha = package_input(
        "acme.alpha",
        "1.0.0",
        vec![Dependency::new(coordinate("acme.gamma"), "../gamma")],
        vec!["clock.wall".to_string()],
        b"alpha",
    );
    let gamma = package_input("acme.gamma", "1.0.0", Vec::new(), Vec::new(), b"gamma");
    let zeta = package_input("acme.zeta", "1.0.0", Vec::new(), Vec::new(), b"zeta");
    let unreachable = package_input(
        "acme.unused",
        "1.0.0",
        vec![Dependency::new(coordinate("acme.nowhere"), "../nowhere")],
        Vec::new(),
        b"unused",
    );
    let graph = resolve_package_inputs(root, vec![zeta, gamma, unreachable, alpha]).expect("graph resolves");
    assert_eq!(
        graph.topological_order().iter().map(|id| id.to_string()).collect::<Vec<_>>(),
        vec!["acme.gamma", "acme.alpha", "acme.zeta", "acme.root"]
    );
    assert_eq!(graph.capabilities, vec!["clock".to_string()]);
    assert_eq!(graph.root_capabilities, vec!["clock".to_string()]);
    let alpha_record = graph.package(&coordinate("acme.alpha")).expect("alpha is resolved");
    let mut alpha_manifest = Manifest::new(coordinate("acme.alpha"), "1.0.0", "main").expect("manifest");
    alpha_manifest.dependencies = vec![Dependency::new(coordinate("acme.gamma"), "../gamma")];
    alpha_manifest.capabilities = vec!["clock.wall".to_string()];
    assert_eq!(
        alpha_record.digest.as_str(),
        ContentDigest::for_package(&alpha_manifest, "main", b"alpha").expect("digest").as_str()
    );
    assert_eq!(graph.to_lockfile().expect("lockfile").len(), 4);
    assert!(graph.validate().is_ok());
    assert!(graph.capability_set().is_ok());
}

#[test]
fn unreachable_root_and_unsafe_entries_are_invalid_input() {
    let root = package_input("acme.root", "1.0.0", Vec::new(), Vec::new(), b"root").with_entry("../escape");
    let error = resolve_package_inputs(root, Vec::new()).expect_err("unsafe entry fails");
    match error {
        ResolveError::InvalidInput { context, detail } => {
            assert_eq!(context, "acme.root");
            assert_eq!(detail, "entry path must be relative and portable");
        }
        other => panic!("expected InvalidInput, got {other:?}"),
    }
    assert!(is_safe_entry_path("src/main.aipo"));
    assert!(!is_safe_entry_path("/abs/main.aipo"));
    assert!(!is_safe_entry_path("c:main"));
    assert!(!is_safe_entry_path("src//main"));
    assert!(!is_safe_entry_path("src\\main"));
    assert!(!is_safe_entry_path("./main"));
    assert!(!is_safe_entry_path(""));
}

#[test]
fn identical_inputs_register_once() {
    let root = package_input("acme.root", "1.0.0", Vec::new(), Vec::new(), b"root");
    let graph = resolve_package_inputs(root.duplicate(), vec![root]).expect("identical input is accepted");
    assert_eq!(graph.topological_order().len(), 1);
}
