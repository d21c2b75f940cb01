use aipo::package::coordinate::PackageId;
use aipo::package::error::ManifestError;
use aipo::package::manifest::{Dependency, Manifest};

fn coordinate(value: &str) -> PackageId {
    PackageId::parse(value).expect("test coordinate")
}

#[test]
fn manifest_canonicalizes_dependencies_targets_and_capabilities() {
    let mut manifest =
        Manifest::new(coordinate("acme.root"), "1.0.0", "main").expect("manifest is valid");
    manifest.dependencies = vec![
        Dependency::new(coordinate("acme.zeta"), "../zeta"),
        Dependency::new(coordinate("acme.alpha"), "../alpha"),
    ];
    manifest.targets = vec!["native".to_string(), "js".to_string(), "js".to_string()];
    manifest.capabilities = vec![
        "clock.wall".to_string(),
        "clock".to_string(),
        "filesystem.read".to_string(),
    ];

    manifest.canonicalize().expect("manifest canonicalizes");
    assert_eq!(
        manifest
            .dependencies
            .iter()
            .map(|dependency| dependency.name.as_str())
            .collect::<Vec<_>>(),
        vec!["acme.alpha", "acme.zeta"]
    );
    assert_eq!(manifest.targets, vec!["js", "native"]);
    assert_eq!(manifest.capabilities, vec!["clock", "filesystem.read"]);
}

#[test]
fn manifest_rejects_invalid_paths_versions_and_capabilities() {
    let mut manifest =
        Manifest::new(coordinate("acme.root"), "1.0.0", "main").expect("manifest is valid");
    manifest.entry = "/tmp/main.aipo".to_string();
    manifest.dependencies = vec![Dependency::new(coordinate("acme.dep"), "/dep")];
    manifest.capabilities = vec!["Clock".to_string()];
    let error = manifest.validate().expect_err("invalid manifest");
    assert!(matches!(error, ManifestError::Invalid { problems } if problems.len() >= 3));
}

#[test]
fn manifest_accepts_semver_prerelease_and_build_metadata() {
    for version in [
        "0.0.0",
        "1.2.3-alpha.1",
        "1.2.3+build.001",
        "1.2.3-rc.1+build.5",
    ] {
        assert!(
            Manifest::new(coordinate("acme.root"), version, "main").is_ok(),
            "version should be valid: {version}"
        );
    }
}

#[test]
fn manifest_rejects_non_exact_semver_versions() {
    for version in [
        "abc", "1.0", "1.0.0.0", "01.0.0", "1.0.0-01", "1.0.0-", "1.0.0+", " 1.0.0", "1.0.0 ",
        "1.0.0\n", "^1.0.0", "~1.0.0", ">=1.0.0",
    ] {
        assert!(
            Manifest::new(coordinate("acme.root"), version, "main").is_err(),
            "version should be invalid: {version}"
        );
    }

    let dependency = Dependency::new(coordinate("acme.dep"), "../dep").with_version("1.0");
    assert!(dependency.validate().is_err());
}

#[test]
fn manifest_rejects_duplicate_dependency_coordinates() {
    let mut manifest =
        Manifest::new(coordinate("acme.root"), "1.0.0", "main").expect("manifest is valid");
    manifest.dependencies = vec![
        Dependency::new(coordinate("acme.dep"), "../one"),
        Dependency::new(coordinate("acme.dep"), "../two"),
    ];
    assert!(manifest.validate().is_err());
}

#[test]
fn manifest_problems_name_the_fields() {
    let mut manifest =
        Manifest::new(coordinate("acme.root"), "1.0.0", "main").expect("manifest is valid");
    manifest.dependencies = vec![
        Dependency::new(coordinate("acme.dep"), "../one"),
        Dependency::new(coordinate("acme.dep"), "../two"),
    ];
    manifest.targets = vec![" js".to_string()];
    manifest.capabilities = vec!["ok".to_string(), "Bad".to_string()];
    match manifest.validate() {
        Err(ManifestError::Invalid { problems }) => {
            let pairs: Vec<(String, String)> = problems
                .iter()
                .map(|p| (p.path.clone(), p.message.clone()))
                .collect();
            assert_eq!(
                pairs,
                vec![
                    (
                        "dependencies[1].name".to_string(),
                        "dependency is declared more than once".to_string()
                    ),
                    (
                        "targets[0]".to_string(),
                        "target must not contain surrounding whitespace or control characters"
                            .to_string()
                    ),
                    (
                        "capabilities[1]".to_string(),
                        "capability segment 'Bad' must match [a-z][a-z0-9_-]*".to_string()
                    ),
                ]
            );
        }
        other => panic!("unexpected {other:?}"),
    }
}

#[test]
fn canonicalize_leaves_an_invalid_manifest_unchanged() {
    let mut manifest =
        Manifest::new(coordinate("acme.root"), "1.0.0", "main").expect("manifest is valid");
    manifest.targets = vec!["native".to_string(), "".to_string()];
    assert!(manifest.canonicalize().is_err());
    assert_eq!(manifest.targets, vec!["native", ""]);
}

#[test]
fn github_dependency_requires_a_version_and_pinned_source() {
    let dependency = Dependency::github(
        coordinate("acme.http"),
        "1.0.0",
        "acme/packages",
        "0123456789abcdef0123456789abcdef01234567",
        "packages/http",
    )
    .expect("valid");
    assert_eq!(dependency.version.as_deref(), Some("1.0.0"));
    assert!(Dependency::github(coordinate("acme.http"), "1.0.0", "acme/packages", "main", ".").is_err());
}

#[test]
fn manifest_parses_flat_and_project_forms() {
    let flat = Manifest::from_str(
        r#"
name = "acme.root"
version = "1.2.3"
entry = "main"
targets = ["js", "native"]
capabilities = ["clock.wall", "clock"]

[[dependencies]]
name = "acme.dep"
path = "../dep"
version = "1.2.3"
"#,
    )
    .expect("flat manifest is valid");
    assert_eq!(flat.name.as_str(), "acme.root");
    assert_eq!(flat.dependencies[0].name.as_str(), "acme.dep");
    assert_eq!(flat.capabilities, vec!["clock"]);

    let project = Manifest::from_str(
        r#"
[project]
name = "acme.project"
version = "0.1.0"
entry = "main"
"#,
    )
    .expect("project manifest is valid");
    assert_eq!(project.name.as_str(), "acme.project");
    assert!(project.dependencies.is_empty());
}

#[test]
fn manifest_rejects_ambiguous_or_unversioned_github_dependencies() {
    let missing_version = Manifest::from_str(
        "[package]\nname = \"acme.app\"\nversion = \"1.0.0\"\nentry = \"main\"\n[dependencies]\n\"acme.http\" = { type = \"github\", repository = \"acme/packages\", revision = \"0123456789abcdef0123456789abcdef01234567\" }\n",
    )
    .expect_err("remote dependency requires a version");
    assert!(matches!(missing_version, ManifestError::Invalid { .. }));

    let mixed_source = Manifest::from_str(
        "[package]\nname = \"acme.app\"\nversion = \"1.0.0\"\nentry = \"main\"\n[dependencies]\n\"acme.http\" = { version = \"1.0.0\", type = \"github\", path = \"../http\", repository = \"acme/packages\", revision = \"0123456789abcdef0123456789abcdef01234567\" }\n",
    )
    .expect_err("remote dependency cannot also declare a path");
    assert!(matches!(mixed_source, ManifestError::Parse { .. }));
}

#[test]
fn manifest_parses_pinned_github_dependency() {
    let manifest = Manifest::from_str(
        r#"
[package]
name = "acme.app"
version = "1.0.0"
entry = "src/main.aipo"

[dependencies]
"acme.http" = { version = "1.0.0", type = "github", repository = "acme/packages", revision = "0123456789abcdef0123456789abcdef01234567", subpath = "packages/http" }
"#,
    )
    .expect("remote dependency manifest is valid");
    assert_eq!(
        manifest.dependencies[0].source,
        aipo::package::lock::PackageSource::github_at(
            "acme/packages",
            "0123456789abcdef0123456789abcdef01234567",
            "packages/http",
        )
        .expect("valid source")
    );
}

#[test]
fn manifest_decoding_errors_name_the_problem() {
    let missing = Manifest::from_str("version = \"1.0.0\"\nentry = \"main\"\n").expect_err("name is required");
    match missing {
        ManifestError::Parse { detail } => assert_eq!(detail, "missing package name"),
        other => panic!("expected a parse error, got {other:?}"),
    }
    let version_only = Manifest::from_str(
        "name = \"acme.app\"\nversion = \"1.0.0\"\nentry = \"main\"\n[dependencies]\n\"acme.dep\" = \"1.0.0\"\n",
    )
    .expect_err("version-only dependency is rejected");
    match version_only {
        ManifestError::Parse { detail } => assert_eq!(
            detail,
            "dependency 'acme.dep' must declare a path or a pinned GitHub source; version-only value '1.0.0' is not supported"
        ),
        other => panic!("expected a parse error, got {other:?}"),
    }
    let unknown_type = Manifest::from_str(
        "name = \"acme.app\"\nversion = \"1.0.0\"\nentry = \"main\"\n[dependencies]\n\"acme.dep\" = { type = \"svn\", path = \"../dep\" }\n",
    )
    .expect_err("unknown source type is rejected");
    match unknown_type {
        ManifestError::Parse { detail } => {
            assert_eq!(detail, "dependency 'acme.dep': unsupported dependency source type 'svn'")
        }
        other => panic!("expected a parse error, got {other:?}"),
    }
    let wrong_type = Manifest::from_str("name = \"acme.app\"\nversion = 1\nentry = \"main\"\n").expect_err("version must be text");
    assert!(matches!(wrong_type, ManifestError::Parse { .. }));
    let not_toml = Manifest::from_str("name = ").expect_err("not TOML");
    assert!(matches!(not_toml, ManifestError::Parse { .. }));
    let not_utf8 = Manifest::from_bytes(&[0xff, 0xfe]).expect_err("not UTF-8");
    assert!(matches!(not_utf8, ManifestError::InvalidUtf8 { .. }));
    let both = Manifest::from_str(
        "[project]\nname = \"acme.a\"\nversion = \"1.0.0\"\nentry = \"main\"\n[package]\nname = \"acme.b\"\nversion = \"1.0.0\"\nentry = \"main\"\n",
    )
    .expect_err("project and package together are ambiguous");
    assert!(matches!(both, ManifestError::Parse { .. }));
    let override_root = Manifest::from_str(
        "name = \"acme.flat\"\nversion = \"9.9.9\"\nentry = \"flat\"\n[project]\nname = \"acme.project\"\n",
    )
    .expect("project fields take precedence");
    assert_eq!(override_root.name.as_str(), "acme.project");
    assert_eq!(override_root.version, "9.9.9");
}
