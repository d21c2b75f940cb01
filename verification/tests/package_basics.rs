use aipo::host::capability::Capability;
use aipo::package::capabilities::{
    first_outside_bound, normalize_capabilities, parse_capabilities, union_capabilities,
};
use aipo::package::coordinate::{PackageId, PackageIdError};
use aipo::package::digest::{ContentDigest, DigestError};
use aipo::package::lock::PackageSource;
use aipo::package::manifest::{Dependency, Manifest};

#[test]
fn capability_normalization_uses_the_host_hierarchy() {
    let names = vec![
        "clock.wall".to_string(),
        "clock".to_string(),
        "filesystem.read".to_string(),
    ];
    assert_eq!(
        normalize_capabilities(&names).expect("valid capabilities"),
        vec!["clock", "filesystem.read"]
    );
}

#[test]
fn capability_union_and_upper_bound_are_deterministic() {
    let root = parse_capabilities(&["clock".to_string()]).expect("root capabilities");
    let dependency =
        parse_capabilities(&["clock.wall".to_string()]).expect("dependency capabilities");
    let union = union_capabilities(&[&root, &dependency]);
    assert!(union.allows(&Capability::parse("clock.monotonic").expect("valid")));
    assert!(first_outside_bound(&root, &union).is_none());

    let outside = parse_capabilities(&["network.http".to_string()]).expect("valid capability");
    assert_eq!(
        first_outside_bound(&root, &outside)
            .expect("outside capability")
            .name(),
        "network.http"
    );
}

#[test]
fn invalid_capability_names_are_rejected() {
    assert!(parse_capabilities(&["Clock".to_string()]).is_err());
    assert!(parse_capabilities(&["clock..wall".to_string()]).is_err());
}

#[test]
fn coordinate_rejects_invalid_shapes_without_panicking() {
    assert_eq!(PackageId::parse(""), Err(PackageIdError::Empty));
    assert_eq!(
        PackageId::parse("acme"),
        Err(PackageIdError::InvalidSegmentCount { segments: 1 })
    );
    assert_eq!(
        PackageId::parse("acme.http.client"),
        Err(PackageIdError::InvalidSegmentCount { segments: 3 })
    );
    for value in [
        "Acme.http",
        "acme.Http",
        "acme.2http",
        "acme.-http",
        ".http",
        "acme.",
        "acme..http",
        "acme.http-client",
        "acme.http ",
        "acme.wáll",
    ] {
        assert!(PackageId::parse(value).is_err(), "{value}");
    }
}

#[test]
fn coordinate_segments_and_text() {
    let id = PackageId::parse("acme.http_client2").expect("valid");
    assert_eq!(id.namespace(), "acme");
    assert_eq!(id.package(), "http_client2");
    assert_eq!(id.as_str(), "acme.http_client2");
    assert_eq!(PackageId::new("acme", "http").expect("valid").as_str(), "acme.http");
}

#[test]
fn digest_parser_rejects_non_canonical_text() {
    assert!(ContentDigest::parse("abc").is_err());
    assert!(ContentDigest::parse(&"A".repeat(64)).is_err());
    assert!(ContentDigest::parse(&"a".repeat(64)).is_ok());
}

#[test]
fn digest_errors_are_typed() {
    assert_eq!(
        ContentDigest::parse("abc").err(),
        Some(DigestError::InvalidLength { length: 3 })
    );
    assert_eq!(
        ContentDigest::parse(&"g".repeat(64)).err(),
        Some(DigestError::InvalidHex)
    );
}

#[test]
fn digest_framing_prevents_part_boundary_collisions() {
    let first = ContentDigest::from_parts(&[("ab", b"c"), ("d", b"")]);
    let second = ContentDigest::from_parts(&[("a", b"bc"), ("d", b"")]);
    assert_ne!(first.as_str(), second.as_str());
    assert_eq!(first.as_str().len(), 64);
}

#[test]
fn digest_from_parts_is_stable() {
    let a = ContentDigest::from_parts(&[("test", b"content")]);
    let b = ContentDigest::from_parts(&[("test", b"content")]);
    assert_eq!(a.as_str(), b.as_str());
    assert_eq!(ContentDigest::algorithm(), "sha256");
}

#[test]
fn github_source_rejects_mutable_or_malformed_revisions() {
    for revision in [
        "main",
        "v1.0.0",
        "0123456789ABCDEF0123456789abcdef01234567",
        "0123456789abcdef0123456789abcdef0123456",
    ] {
        assert!(
            PackageSource::github("acme/packages", revision).is_err(),
            "{revision}"
        );
    }
    assert!(PackageSource::github_at(
        "https://github.com/acme/packages",
        "0123456789abcdef0123456789abcdef01234567",
        "."
    )
    .is_err());
    assert!(PackageSource::github_at(
        "Acme/packages",
        "0123456789abcdef0123456789abcdef01234567",
        "."
    )
    .is_err());
    assert!(PackageSource::github_at(
        "acme/packages",
        "0123456789abcdef0123456789abcdef01234567",
        "../escape"
    )
    .is_err());
}

#[test]
fn github_source_location_names_repository_revision_and_subpath() {
    let source = PackageSource::github_at(
        "acme/packages",
        "0123456789abcdef0123456789abcdef01234567",
        "packages/http",
    )
    .expect("valid GitHub source");
    assert_eq!(
        source.location(),
        "github:acme/packages@0123456789abcdef0123456789abcdef01234567/packages/http"
    );
    assert!(PackageSource::path("../dep").is_ok());
    assert!(PackageSource::path("/abs").is_err());
}

#[test]
fn digest_is_stable_for_identical_content() {
    let manifest = Manifest::new(PackageId::parse("acme.root").expect("valid"), "1.0.0", "main")
        .expect("valid manifest");
    let first = ContentDigest::for_package(&manifest, "main", b"same bytes").expect("digest computes");
    let second = ContentDigest::for_package(&manifest, "main", b"same bytes").expect("digest computes");
    assert_eq!(first, second);
    assert_eq!(first.as_str().len(), 64);
    assert_eq!(ContentDigest::algorithm(), "sha256");
}

#[test]
fn digest_changes_with_manifest_or_entry_content() {
    let manifest = Manifest::new(PackageId::parse("acme.root").expect("valid"), "1.0.0", "main")
        .expect("valid manifest");
    let mut changed_manifest = manifest.duplicate();
    changed_manifest
        .dependencies
        .push(Dependency::new(PackageId::parse("acme.dep").expect("valid"), "../dep"));
    let baseline = ContentDigest::for_package(&manifest, "main", b"entry").expect("digest");
    let changed = ContentDigest::for_package(&changed_manifest, "main", b"entry").expect("digest");
    let changed_entry = ContentDigest::for_package(&manifest, "main", b"other").expect("digest");
    assert_ne!(baseline, changed);
    assert_ne!(baseline, changed_entry);
}

#[test]
fn capability_union_does_not_depend_on_the_order_of_sets() {
    let first = parse_capabilities(&["clock.wall".to_string(), "network.http".to_string()]).expect("valid");
    let second = parse_capabilities(&["clock".to_string()]).expect("valid");
    let third = parse_capabilities(&["network".to_string()]).expect("valid");
    let names = |set: &aipo::host::capability::CapabilitySet| -> Vec<String> {
        set.as_slice().iter().map(|c| c.name().to_string()).collect()
    };
    let forward = union_capabilities(&[&first, &second, &third]);
    let backward = union_capabilities(&[&third, &second, &first]);
    assert_eq!(names(&forward), names(&backward));
    assert_eq!(names(&forward), vec!["clock", "network"]);
}
