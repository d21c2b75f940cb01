use aipo::package::coordinate::PackageId;
use aipo::package::digest::ContentDigest;
use aipo::package::error::LockfileError;
use aipo::package::lock::{LockedPackage, PackageSource};
use aipo::package::lockfile::Lockfile;

fn coordinate(value: &str) -> PackageId {
    PackageId::parse(value).expect("test coordinate")
}

fn digest() -> ContentDigest {
    ContentDigest::from_parts(&[("test", b"content")])
}

fn local(name: &str, path: &str, deps: Vec<PackageId>, caps: Vec<String>) -> LockedPackage {
    LockedPackage::new(
        coordinate(name),
        "1.0.0",
        PackageSource::Path {
            path: path.to_string(),
        },
        digest(),
        deps,
        caps,
    )
}

#[test]
fn lockfile_canonicalizes_package_edges_and_capabilities() {
    let dependency = local("acme.dep", "../dep", Vec::new(), Vec::new());
    let root = local(
        "acme.root",
        ".",
        vec![coordinate("acme.dep")],
        vec!["clock.wall".to_string(), "clock".to_string()],
    );
    let lockfile = Lockfile::new(vec![root, dependency]).expect("lockfile is valid");
    assert_eq!(
        lockfile
            .iter()
            .iter()
            .map(|package| package.coordinate.as_str())
            .collect::<Vec<_>>(),
        vec!["acme.dep", "acme.root"]
    );
    assert_eq!(lockfile.packages[1].capabilities, vec!["clock"]);
    assert!(lockfile.validate().is_ok());
}

#[test]
fn lockfile_rejects_non_semver_versions() {
    for version in ["abc", "1.0", "1.0.0.0", " 1.0.0", "^1.0.0", "~1.0.0"] {
        let package = LockedPackage::new(
            coordinate("acme.root"),
            version,
            PackageSource::Path {
                path: ".".to_string(),
            },
            digest(),
            Vec::new(),
            Vec::new(),
        );
        assert!(
            package.validate().is_err(),
            "version should be invalid: {version}"
        );
    }
}

#[test]
fn lockfile_rejects_missing_edges_absolute_sources_and_cycles() {
    let missing = local("acme.root", ".", vec![coordinate("acme.missing")], Vec::new());
    assert!(Lockfile::new(vec![missing]).is_err());

    let absolute = local("acme.root", "/tmp/root", Vec::new(), Vec::new());
    assert!(Lockfile::new(vec![absolute]).is_err());

    let first = local("acme.first", ".", vec![coordinate("acme.second")], Vec::new());
    let second = local("acme.second", ".", vec![coordinate("acme.first")], Vec::new());
    assert!(Lockfile::new(vec![first, second]).is_err());
}

fn problems_of(result: Result<Lockfile, LockfileError>) -> Vec<(String, String)> {
    match result {
        Err(LockfileError::Invalid { problems }) => problems
            .into_iter()
            .map(|p| (p.path, p.message))
            .collect(),
        Err(other) => panic!("unexpected error {other:?}"),
        Ok(_) => panic!("expected an error"),
    }
}

#[test]
fn cycle_problem_names_the_cycle_in_search_order() {
    let first = local("acme.first", ".", vec![coordinate("acme.second")], Vec::new());
    let second = local("acme.second", ".", vec![coordinate("acme.first")], Vec::new());
    assert_eq!(
        problems_of(Lockfile::new(vec![second, first])),
        vec![(
            "packages".to_string(),
            "dependency cycle: acme.first -> acme.second -> acme.first".to_string()
        )]
    );
}

#[test]
fn self_dependency_is_a_problem_and_a_cycle() {
    let root = local("acme.root", ".", vec![coordinate("acme.root")], Vec::new());
    assert_eq!(
        problems_of(Lockfile::new(vec![root])),
        vec![
            (
                "packages[0].dependencies[0]".to_string(),
                "package cannot depend on itself".to_string()
            ),
            (
                "packages".to_string(),
                "dependency cycle: acme.root -> acme.root".to_string()
            ),
        ]
    );
}

#[test]
fn missing_edge_names_package_and_dependency() {
    let root = local("acme.root", ".", vec![coordinate("acme.missing")], Vec::new());
    assert_eq!(
        problems_of(Lockfile::new(vec![root])),
        vec![(
            "packages.acme.root.dependencies".to_string(),
            "dependency 'acme.missing' is not locked".to_string()
        )]
    );
}

#[test]
fn duplicate_coordinates_are_reported() {
    let a = local("acme.root", ".", Vec::new(), Vec::new());
    let b = local("acme.root", "../other", Vec::new(), Vec::new());
    assert_eq!(
        problems_of(Lockfile::new(vec![a, b])),
        vec![(
            "packages[1].coordinate".to_string(),
            "package coordinate is locked more than once".to_string()
        )]
    );
}

#[test]
fn canonical_lockfile_sorts_edges_and_targets() {
    let dep_a = local("acme.a", "../a", Vec::new(), Vec::new());
    let dep_b = local("acme.b", "../b", Vec::new(), Vec::new());
    let root = local(
        "acme.root",
        ".",
        vec![coordinate("acme.b"), coordinate("acme.a")],
        Vec::new(),
    )
    .with_targets(vec!["native".to_string(), "js".to_string(), "js".to_string()]);
    let lockfile = Lockfile::new(vec![root, dep_b, dep_a]).expect("valid");
    assert_eq!(lockfile.len(), 3);
    assert!(!lockfile.is_empty());
    let root = lockfile.package(&coordinate("acme.root")).expect("locked");
    assert_eq!(
        root.dependencies.iter().map(|d| d.as_str()).collect::<Vec<_>>(),
        vec!["acme.a", "acme.b"]
    );
    assert_eq!(root.targets, vec!["js", "native"]);
    assert!(lockfile.package(&coordinate("acme.none")).is_none());
}

#[test]
fn unordered_lockfile_fails_validation_until_canonicalized() {
    let dep = local("acme.dep", "../dep", Vec::new(), Vec::new());
    let root = local("acme.root", ".", vec![coordinate("acme.dep")], Vec::new());
    let mut lockfile = Lockfile {
        packages: vec![root, dep],
    };
    assert!(lockfile.validate().is_err());
    assert!(lockfile.canonicalize().is_ok());
    assert!(lockfile.validate().is_ok());
}

#[test]
fn canonicalizing_twice_changes_nothing() {
    let dep = local("acme.dep", "../dep", Vec::new(), vec!["network.http".to_string(), "network".to_string()]);
    let root = local(
        "acme.root",
        ".",
        vec![coordinate("acme.dep")],
        vec!["clock.wall".to_string(), "clock".to_string()],
    );
    let mut lockfile = Lockfile { packages: vec![root, dep] };
    assert!(lockfile.canonicalize().is_ok());
    let first: Vec<(String, Vec<String>)> = lockfile
        .packages
        .iter()
        .map(|p| (p.coordinate.as_str().to_string(), p.capabilities.clone()))
        .collect();
    assert!(lockfile.canonicalize().is_ok());
    let second: Vec<(String, Vec<String>)> = lockfile
        .packages
        .iter()
        .map(|p| (p.coordinate.as_str().to_string(), p.capabilities.clone()))
        .collect();
    assert_eq!(first, second);
    assert_eq!(
        first,
        vec![
            ("acme.dep".to_string(), vec!["network".to_string()]),
            ("acme.root".to_string(), vec!["clock".to_string()]),
        ]
    );
}
