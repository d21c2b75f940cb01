use aipo::package::coordinate::PackageId;
use aipo::package::digest::ContentDigest;
use aipo::package::error::{ManifestError, ResolveError};
use aipo::package::github::{
    package_input_from_artifact, resolve_fetched, resolve_github_package_graph, GitHubArtifact, GitHubFetchError,
    GitHubFetcher, GitHubGraphError, InMemoryGitHubStore,
};
use aipo::package::lock::PackageSource;
use aipo::package::manifest::{Dependency, Manifest};
use aipo::package::resolver::{resolve_package_inputs, PackageInput};

use std::cell::RefCell;

const REVISION: &str = "0123456789abcdef0123456789abcdef01234567";

fn source() -> PackageSource {
    PackageSource::github_at("acme/packages", REVISION, "packages/http").expect("valid source")
}

fn package_manifest() -> Manifest {
    Manifest::new(PackageId::parse("acme.http").expect("coordinate"), "1.0.0", "src/main.aipo")
        .expect("manifest")
}

fn remote_manifest(name: &str, version: &str, dependencies: &str) -> String {
    format!(
        "[package]\nname = \"{name}\"\nversion = \"{version}\"\nentry = \"src/main.aipo\"\n{dependencies}"
    )
}

fn github_dependency(name: &str, version: &str, repository: &str) -> String {
    format!(
        "\"{name}\" = {{ version = \"{version}\", type = \"github\", repository = \"{repository}\", revision = \"{REVISION}\", subpath = \".\" }}\n"
    )
}

#[test]
fn offline_store_fetches_and_builds_package_input() {
    let source = source();
    let mut store = InMemoryGitHubStore::new();
    store
        .insert(
            source.clone(),
            GitHubArtifact::new(
                "[package]\nname = \"acme.http\"\nversion = \"1.0.0\"\nentry = \"src/main.aipo\"\n".as_bytes(),
                "export answer\nfn answer()\nreturn 42\nend\n".as_bytes(),
            ),
        )
        .expect("source inserts");
    let artifact = store.fetch(&source).expect("source fetches");
    let input = package_input_from_artifact(source.clone(), artifact).expect("manifest parses");
    assert_eq!(input.manifest.name.as_str(), "acme.http");
    assert_eq!(input.source, source);
}

#[test]
fn offline_store_reports_missing_and_non_github_sources() {
    let source = source();
    let store = InMemoryGitHubStore::new();
    assert!(matches!(store.fetch(&source), Err(GitHubFetchError::NotFound { .. })));
    assert!(matches!(
        store.fetch(&PackageSource::path("local").expect("path source")),
        Err(GitHubFetchError::UnsupportedSource { .. })
    ));
}

#[test]
fn resolved_graph_preserves_github_source_and_digest() {
    let root_source = PackageSource::path(".").expect("root source");
    let mut root_manifest = Manifest::new(
        PackageId::parse("acme.app").expect("root coordinate"),
        "1.0.0",
        "src/main.aipo",
    )
    .expect("root manifest");
    root_manifest
        .dependencies
        .push(Dependency::new(PackageId::parse("acme.http").expect("remote coordinate"), "../remote"));
    let root = PackageInput::from_manifest(root_manifest, b"import acme.http\n".to_vec())
        .expect("root input")
        .with_source(root_source);
    let remote_source = source();
    let remote = package_input_from_artifact(
        remote_source.clone(),
        GitHubArtifact::new(
            "[package]\nname = \"acme.http\"\nversion = \"1.0.0\"\nentry = \"src/main.aipo\"\n".as_bytes(),
            "export answer\nfn answer()\nreturn 42\nend\n".as_bytes(),
        ),
    )
    .expect("remote input");
    let graph = resolve_package_inputs(root, vec![remote]).expect("graph resolves");
    let package = graph
        .package(&PackageId::parse("acme.http").expect("coordinate"))
        .expect("remote package");
    assert_eq!(package.source, remote_source);
    assert_eq!(
        package.digest,
        ContentDigest::for_package(
            &package_manifest(),
            "src/main.aipo",
            b"export answer\nfn answer()\nreturn 42\nend\n"
        )
        .expect("digest")
    );
}

#[test]
fn resolves_pinned_remote_dependency_graph_offline() {
    let root_source = PackageSource::github_at("acme/root", REVISION, ".").expect("root source");
    let dependency_source = source();
    let mut store = InMemoryGitHubStore::new();
    store
        .insert(
            root_source.clone(),
            GitHubArtifact::new(
                "[package]\nname = \"acme.app\"\nversion = \"1.0.0\"\nentry = \"src/main.aipo\"\n[dependencies]\n\"acme.http\" = { version = \"1.0.0\", type = \"github\", repository = \"acme/packages\", revision = \"0123456789abcdef0123456789abcdef01234567\", subpath = \"packages/http\" }\n".as_bytes(),
                b"import acme.http\n",
            ),
        )
        .expect("root source inserts");
    store
        .insert(
            dependency_source.clone(),
            GitHubArtifact::new(
                "[package]\nname = \"acme.http\"\nversion = \"1.0.0\"\nentry = \"src/main.aipo\"\n".as_bytes(),
                b"export answer\n",
            ),
        )
        .expect("dependency source inserts");

    let resolved =
        resolve_github_package_graph(root_source.clone(), &store).expect("remote graph resolves");
    assert_eq!(resolved.root.source, root_source);
    assert_eq!(resolved.graph.topological_order().len(), 2);
    assert_eq!(
        resolved
            .graph
            .package(&PackageId::parse("acme.http").expect("coordinate"))
            .expect("dependency package")
            .source,
        dependency_source
    );
    assert_eq!(resolved.graph.to_lockfile().expect("lockfile").len(), 2);
}

#[test]
fn remote_graph_rejects_local_dependencies_inside_remote_packages() {
    let root_source = PackageSource::github_at("acme/root", REVISION, ".").expect("root source");
    let mut store = InMemoryGitHubStore::new();
    store
        .insert(
            root_source.clone(),
            GitHubArtifact::new(
                "[package]\nname = \"acme.app\"\nversion = \"1.0.0\"\nentry = \"src/main.aipo\"\n[dependencies]\n\"acme.local\" = { path = \"../local\" }\n".as_bytes(),
                b"let answer = 1\n",
            ),
        )
        .expect("root source inserts");

    let error =
        resolve_github_package_graph(root_source, &store).expect_err("local remote dependency fails");
    assert!(matches!(error, GitHubGraphError::Resolve(ResolveError::InvalidInput { .. })));
    assert_eq!(
        error.to_string(),
        "GitHub graph resolution failed: invalid package input 'acme.app': remote package declares local path dependency '../local'; remote path dependencies are not enabled"
    );
}

#[test]
fn store_insert_replaces_and_refuses_unsupported_sources() {
    let mut store = InMemoryGitHubStore::new();
    assert!(store.is_empty());
    store.insert(source(), GitHubArtifact::new(b"first", b"one")).expect("insert");
    store.insert(source(), GitHubArtifact::new(b"second", b"two")).expect("replace");
    assert_eq!(store.len(), 1);
    assert!(!store.is_empty());
    let stored = store.get(&source()).expect("stored artifact");
    assert_eq!(stored.manifest, b"second".to_vec());
    assert_eq!(stored.entry, b"two".to_vec());

    let local = PackageSource::path("local").expect("path source");
    let error = store.insert(local.clone(), GitHubArtifact::new(b"", b"")).expect_err("path refused");
    assert_eq!(error, GitHubFetchError::UnsupportedSource { source: "local".to_string() });
    assert_eq!(error.to_string(), "source 'local' is not a GitHub source");
    assert!(store.get(&local).is_none());

    let invalid = PackageSource::GitHub {
        repository: "acme/packages".to_string(),
        revision: "main".to_string(),
        subpath: ".".to_string(),
    };
    let error = store.insert(invalid, GitHubArtifact::new(b"", b"")).expect_err("invalid refused");
    assert!(matches!(error, GitHubFetchError::InvalidSource { .. }));
    assert!(error.to_string().starts_with("GitHub source 'github:acme/packages@main/.' is invalid: lockfile is invalid: source.revision:"));
    assert_eq!(store.len(), 1);
}

#[test]
fn artifact_with_invalid_manifest_is_reported_with_its_source() {
    let error = package_input_from_artifact(source(), GitHubArtifact::new(b"[package]\nname = 3\n", b""))
        .expect_err("invalid manifest");
    match error {
        GitHubFetchError::InvalidManifest { source, error } => {
            assert_eq!(source, format!("github:acme/packages@{REVISION}/packages/http"));
            assert!(matches!(error, ManifestError::Parse { .. }));
        }
        other => panic!("unexpected error {other:?}"),
    }
    let local = PackageSource::path("local").expect("path source");
    assert!(matches!(
        package_input_from_artifact(local, GitHubArtifact::new(b"", b"")),
        Err(GitHubFetchError::UnsupportedSource { .. })
    ));
}

#[test]
fn remote_graph_reports_version_conflicts_and_missing_sources() {
    let root_source = PackageSource::github_at("acme/root", REVISION, ".").expect("root source");
    let lib_source = PackageSource::github_at("acme/lib", REVISION, ".").expect("lib source");
    let mut store = InMemoryGitHubStore::new();
    store
        .insert(
            root_source.clone(),
            GitHubArtifact::new(
                remote_manifest(
                    "acme.app",
                    "1.0.0",
                    &format!("[dependencies]\n{}", github_dependency("acme.lib", "2.0.0", "acme/lib")),
                )
                .as_bytes(),
                b"",
            ),
        )
        .expect("root inserts");
    let missing = resolve_github_package_graph(root_source.clone(), &store).expect_err("lib is missing");
    assert!(matches!(missing, GitHubGraphError::Fetch(GitHubFetchError::NotFound { .. })));
    assert_eq!(
        missing.to_string(),
        format!("GitHub graph fetch failed: GitHub source 'github:acme/lib@{REVISION}/.' was not found")
    );

    store
        .insert(lib_source, GitHubArtifact::new(remote_manifest("acme.lib", "1.0.0", "").as_bytes(), b""))
        .expect("lib inserts");
    let conflict = resolve_github_package_graph(root_source, &store).expect_err("versions differ");
    assert_eq!(
        conflict,
        GitHubGraphError::Resolve(ResolveError::VersionConflict {
            coordinate: PackageId::parse("acme.lib").expect("coordinate"),
            expected: "2.0.0".to_string(),
            actual: "1.0.0".to_string(),
            dependent: PackageId::parse("acme.app").expect("coordinate"),
        })
    );
    assert_eq!(
        conflict.to_string(),
        "GitHub graph resolution failed: package 'acme.app' requires 'acme.lib' version '2.0.0', but '1.0.0' was found"
    );
}

#[test]
fn remote_graph_fetches_shared_dependencies_once() {
    let root_source = PackageSource::github_at("acme/root", REVISION, ".").expect("root source");
    let mut store = InMemoryGitHubStore::new();
    let root_deps = format!(
        "[dependencies]\n{}{}",
        github_dependency("acme.left", "1.0.0", "acme/left"),
        github_dependency("acme.right", "1.0.0", "acme/right")
    );
    let shared = format!("[dependencies]\n{}", github_dependency("acme.base", "1.0.0", "acme/base"));
    for (repository, manifest) in [
        ("acme/root", remote_manifest("acme.app", "1.0.0", &root_deps)),
        ("acme/left", remote_manifest("acme.left", "1.0.0", &shared)),
        ("acme/right", remote_manifest("acme.right", "1.0.0", &shared)),
        ("acme/base", remote_manifest("acme.base", "1.0.0", "")),
    ] {
        let source = PackageSource::github_at(repository, REVISION, ".").expect("source");
        store.insert(source, GitHubArtifact::new(manifest.as_bytes(), b"")).expect("inserts");
    }
    assert_eq!(store.len(), 4);
    let resolved = resolve_github_package_graph(root_source, &store).expect("graph resolves");
    let order: Vec<String> =
        resolved.graph.topological_order().iter().map(|id| id.to_string()).collect();
    assert_eq!(order, vec!["acme.base", "acme.left", "acme.right", "acme.app"]);
}

#[test]
fn remote_graph_rejects_a_coordinate_that_differs_from_the_edge() {
    let root_source = PackageSource::github_at("acme/root", REVISION, ".").expect("root source");
    let mut store = InMemoryGitHubStore::new();
    store
        .insert(
            root_source.clone(),
            GitHubArtifact::new(
                remote_manifest(
                    "acme.app",
                    "1.0.0",
                    &format!("[dependencies]\n{}", github_dependency("acme.lib", "1.0.0", "acme/lib")),
                )
                .as_bytes(),
                b"",
            ),
        )
        .expect("root inserts");
    let lib_source = PackageSource::github_at("acme/lib", REVISION, ".").expect("lib source");
    store
        .insert(lib_source, GitHubArtifact::new(remote_manifest("acme.other", "1.0.0", "").as_bytes(), b""))
        .expect("lib inserts");
    let error = resolve_github_package_graph(root_source, &store).expect_err("coordinate differs");
    assert_eq!(
        error.to_string(),
        "GitHub graph resolution failed: dependency expected coordinate 'acme.lib', but its manifest declares 'acme.other'"
    );
    let local_root = PackageSource::path(".").expect("path");
    assert!(matches!(
        resolve_github_package_graph(local_root, &store),
        Err(GitHubGraphError::Fetch(GitHubFetchError::UnsupportedSource { .. }))
    ));
}

#[test]
fn fetch_error_messages_render_numbers() {
    let status = GitHubFetchError::HttpStatus { source: "s".to_string(), status: 404 };
    assert_eq!(status.to_string(), "GitHub source 's' returned HTTP 404");
    let redirect = GitHubFetchError::Redirect { source: "s".to_string(), status: 302 };
    assert_eq!(redirect.to_string(), "GitHub source 's' attempted HTTP redirect 302");
    let large = GitHubFetchError::ResponseTooLarge { source: "s".to_string(), limit: 1024 };
    assert_eq!(large.to_string(), "GitHub source 's' exceeded the 1024-byte limit");
    let cycle = ResolveError::DependencyCycle {
        cycle: vec![
            PackageId::parse("acme.a").expect("a"),
            PackageId::parse("acme.b").expect("b"),
            PackageId::parse("acme.a").expect("a"),
        ],
    };
    assert_eq!(cycle.to_string(), "package dependency cycle: acme.a -> acme.b -> acme.a");
    let entry = ResolveError::EntryNotFound {
        coordinate: PackageId::parse("acme.a").expect("a"),
        entry: "main".to_string(),
        candidates: vec!["main".to_string(), "main.aipo".to_string()],
    };
    assert_eq!(entry.to_string(), "package 'acme.a' entry 'main' was not found (tried main, main.aipo)");
}

struct LoggingFetcher {
    store: InMemoryGitHubStore,
    calls: RefCell<Vec<String>>,
}

impl GitHubFetcher for LoggingFetcher {
    fn fetch(&self, source: &PackageSource) -> Result<GitHubArtifact, GitHubFetchError> {
        self.calls.borrow_mut().push(source.location());
        self.store.fetch(source)
    }
}

fn diamond_store() -> InMemoryGitHubStore {
    let mut store = InMemoryGitHubStore::new();
    let root_deps = format!(
        "[dependencies]\n{}{}",
        github_dependency("acme.left", "1.0.0", "acme/left"),
        github_dependency("acme.right", "1.0.0", "acme/right")
    );
    let shared = format!("[dependencies]\n{}", github_dependency("acme.base", "1.0.0", "acme/base"));
    for (repository, manifest) in [
        ("acme/root", remote_manifest("acme.app", "1.0.0", &root_deps)),
        ("acme/left", remote_manifest("acme.left", "1.0.0", &shared)),
        ("acme/right", remote_manifest("acme.right", "1.0.0", &shared)),
        ("acme/base", remote_manifest("acme.base", "1.0.0", "")),
    ] {
        let source = PackageSource::github_at(repository, REVISION, ".").expect("source");
        store.insert(source, GitHubArtifact::new(manifest.as_bytes(), b"")).expect("inserts");
    }
    store
}

#[test]
fn remote_graph_fetches_the_root_first_and_each_source_once() {
    let root_source = PackageSource::github_at("acme/root", REVISION, ".").expect("root source");
    let fetcher = LoggingFetcher { store: diamond_store(), calls: RefCell::new(Vec::new()) };
    let resolved = resolve_github_package_graph(root_source.clone(), &fetcher).expect("graph resolves");
    let calls = fetcher.calls.borrow().clone();
    let label = |repository: &str| format!("github:{repository}@{REVISION}/.");
    assert_eq!(calls, vec![label("acme/root"), label("acme/left"), label("acme/right"), label("acme/base")]);
    assert_eq!(resolved.root.source, root_source);
    assert_eq!(resolved.graph.topological_order().len(), calls.len());
}

#[test]
fn remote_graph_stops_at_the_first_fetch_error() {
    let root_source = PackageSource::github_at("acme/root", REVISION, ".").expect("root source");
    let mut store = InMemoryGitHubStore::new();
    let root_deps = format!("[dependencies]\n{}", github_dependency("acme.left", "1.0.0", "acme/left"));
    store
        .insert(root_source.clone(), GitHubArtifact::new(remote_manifest("acme.app", "1.0.0", &root_deps).as_bytes(), b""))
        .expect("root inserts");
    let fetcher = LoggingFetcher { store, calls: RefCell::new(Vec::new()) };
    let error = resolve_github_package_graph(root_source, &fetcher).expect_err("left is missing");
    assert!(matches!(error, GitHubGraphError::Fetch(GitHubFetchError::NotFound { .. })));
    assert_eq!(fetcher.calls.borrow().len(), 2);
}

#[test]
fn resolve_fetched_resolves_from_the_given_root() {
    let store = diamond_store();
    let input = |repository: &str| {
        let source = PackageSource::github_at(repository, REVISION, ".").expect("source");
        let artifact = store.fetch(&source).expect("stored");
        package_input_from_artifact(source, artifact).expect("input")
    };
    let root = input("acme/root");
    let rest = vec![input("acme/base"), input("acme/left"), input("acme/right")];
    let resolved = resolve_fetched(root, rest).expect("graph resolves");
    assert_eq!(resolved.root.manifest.name.as_str(), "acme.app");
    let order: Vec<String> = resolved.graph.topological_order().iter().map(|id| id.to_string()).collect();
    assert_eq!(order, vec!["acme.base", "acme.left", "acme.right", "acme.app"]);
    let lone = resolve_fetched(input("acme/left"), Vec::new()).expect_err("base is not among the inputs");
    assert!(matches!(lone, GitHubGraphError::Resolve(_)));
}

#[test]
fn resolve_fetched_refuses_local_paths_and_mismatched_coordinates() {
    let root_source = PackageSource::github_at("acme/root", REVISION, ".").expect("root source");
    let local = remote_manifest("acme.app", "1.0.0", "[dependencies]\n\"acme.local\" = { path = \"../local\" }\n");
    let root = package_input_from_artifact(root_source.clone(), GitHubArtifact::new(local.as_bytes(), b""))
        .expect("input");
    let error = resolve_fetched(root, Vec::new()).expect_err("local path refused");
    assert_eq!(
        error.to_string(),
        "GitHub graph resolution failed: invalid package input 'acme.app': remote package declares local path dependency '../local'; remote path dependencies are not enabled"
    );

    let edge = remote_manifest(
        "acme.app",
        "1.0.0",
        &format!("[dependencies]\n{}", github_dependency("acme.lib", "1.0.0", "acme/lib")),
    );
    let root = package_input_from_artifact(root_source, GitHubArtifact::new(edge.as_bytes(), b"")).expect("input");
    let lib_source = PackageSource::github_at("acme/lib", REVISION, ".").expect("lib source");
    let lib = package_input_from_artifact(
        lib_source,
        GitHubArtifact::new(remote_manifest("acme.other", "1.0.0", "").as_bytes(), b""),
    )
    .expect("input");
    let error = resolve_fetched(root, vec![lib]).expect_err("coordinate differs");
    assert_eq!(
        error.to_string(),
        "GitHub graph resolution failed: dependency expected coordinate 'acme.lib', but its manifest declares 'acme.other'"
    );
}
