use aipo::package::coordinate::PackageId;
use aipo::package::discovery::{
    check_found_version, dependency_directory_error, discovery_step, entry_candidates, DependencyPlan,
    DiscoveryStep,
};
use aipo::package::error::ResolveError;
use aipo::package::manifest::Manifest;
use aipo::package::resolver::PackageInput;

fn id(value: &str) -> PackageId {
    PackageId::parse(value).expect("coordinate")
}

fn manifest(name: &str, dependencies: &str) -> Manifest {
    Manifest::from_str(&format!(
        "[package]\nname = \"{name}\"\nversion = \"1.0.0\"\nentry = \"main\"\n{dependencies}"
    ))
    .expect("manifest")
}

fn input(name: &str, dependencies: &str) -> PackageInput {
    PackageInput::from_manifest(manifest(name, dependencies), b"let x = 1\n".to_vec()).expect("input")
}

const REMOTE: &str = "\"acme.remote\" = { version = \"1.0.0\", type = \"github\", repository = \"acme/packages\", revision = \"0123456789abcdef0123456789abcdef01234567\" }\n";

#[test]
fn discovery_refuses_a_coordinate_other_than_the_expected_one() {
    let m = manifest("acme.other", "");
    let expected = id("acme.dep");
    let step = discovery_step(&m, "/work/dep", "../dep", Some(&expected), false, &Vec::new(), &Vec::new());
    match step {
        Err(ResolveError::CoordinateMismatch { expected, actual }) => {
            assert_eq!(expected.as_str(), "acme.dep");
            assert_eq!(actual.as_str(), "acme.other");
        }
        other => panic!("unexpected {other:?}"),
    }
}

#[test]
fn discovery_reports_the_cycle_from_the_first_visit() {
    let m = manifest("acme.dep", "");
    let active = vec![id("acme.root"), id("acme.dep"), id("acme.mid")];
    let step = discovery_step(&m, "/work/dep", "../dep", None, false, &active, &Vec::new());
    match step {
        Err(ResolveError::DependencyCycle { cycle }) => {
            let names: Vec<&str> = cycle.iter().map(|c| c.as_str()).collect();
            assert_eq!(names, vec!["acme.dep", "acme.mid", "acme.dep"]);
        }
        other => panic!("unexpected {other:?}"),
    }
}

#[test]
fn discovery_checks_a_coordinate_found_before() {
    let known = input("acme.dep", "");
    let discovered = vec![(id("acme.dep"), "/work/first".to_string(), known.duplicate())];
    let same = discovery_step(&manifest("acme.dep", ""), "/work/first", "../first", None, false, &Vec::new(), &discovered);
    assert!(matches!(same, Ok(DiscoveryStep::Known(ref x)) if x.manifest.name.as_str() == "acme.dep"));

    let elsewhere =
        discovery_step(&manifest("acme.dep", ""), "/work/second", "../second", None, false, &Vec::new(), &discovered);
    match elsewhere {
        Err(ResolveError::DuplicateCoordinate { coordinate, first_source, second_source }) => {
            assert_eq!(coordinate.as_str(), "acme.dep");
            assert_eq!(first_source, ".");
            assert_eq!(second_source, "../second");
        }
        other => panic!("unexpected {other:?}"),
    }

    let changed = manifest("acme.dep", "[dependencies]\n\"acme.base\" = { path = \"../base\" }\n");
    let differs = discovery_step(&changed, "/work/first", "../first", None, false, &Vec::new(), &discovered);
    match differs {
        Err(ResolveError::InvalidInput { context, detail }) => {
            assert_eq!(context, "acme.dep");
            assert_eq!(detail, "the same package path produced different manifests");
        }
        other => panic!("unexpected {other:?}"),
    }
}

#[test]
fn discovery_plans_local_and_remote_dependencies_in_order() {
    let deps = format!("[dependencies]\n\"acme.local\" = {{ path = \"../local\", version = \"1.0.0\" }}\n{REMOTE}");
    let m = manifest("acme.root", &deps);
    match discovery_step(&m, "/work/root", ".", None, false, &Vec::new(), &Vec::new()) {
        Ok(DiscoveryStep::Visit(plans)) => {
            assert_eq!(plans.len(), 2);
            match &plans[0] {
                DependencyPlan::Local { name, path, version } => {
                    assert_eq!(name.as_str(), "acme.local");
                    assert_eq!(path, "../local");
                    assert_eq!(version.as_deref(), Some("1.0.0"));
                }
                other => panic!("unexpected {other:?}"),
            }
            assert!(matches!(
                &plans[1],
                DependencyPlan::Refused(ResolveError::RemoteDependencyUnsupported { .. })
            ));
        }
        other => panic!("unexpected {other:?}"),
    }
    match discovery_step(&m, "/work/root", ".", None, true, &Vec::new(), &Vec::new()) {
        Ok(DiscoveryStep::Visit(plans)) => assert!(matches!(plans[1], DependencyPlan::Remote)),
        other => panic!("unexpected {other:?}"),
    }
}

#[test]
fn found_version_must_match_the_required_one() {
    let found = input("acme.dep", "");
    assert!(check_found_version(&id("acme.root"), &id("acme.dep"), &Some("1.0.0".to_string()), &found).is_ok());
    assert!(check_found_version(&id("acme.root"), &id("acme.dep"), &None, &found).is_ok());
    match check_found_version(&id("acme.root"), &id("acme.dep"), &Some("2.0.0".to_string()), &found) {
        Err(ResolveError::VersionConflict { coordinate, expected, actual, dependent }) => {
            assert_eq!(coordinate.as_str(), "acme.dep");
            assert_eq!(expected, "2.0.0");
            assert_eq!(actual, "1.0.0");
            assert_eq!(dependent.as_str(), "acme.root");
        }
        other => panic!("unexpected {other:?}"),
    }
}

#[test]
fn missing_dependency_directory_is_its_own_error() {
    assert!(matches!(
        dependency_directory_error(&id("acme.root"), &id("acme.absent"), "../absent", true, "not found"),
        ResolveError::MissingDependency { .. }
    ));
    assert_eq!(
        dependency_directory_error(&id("acme.root"), &id("acme.absent"), "../absent", false, "denied"),
        ResolveError::Io { path: "../absent".to_string(), detail: "denied".to_string() }
    );
}

#[test]
fn entry_candidates_follow_the_discovery_order() {
    assert_eq!(entry_candidates("main"), vec!["main", "main.aipo", "src/main.aipo"]);
    assert_eq!(entry_candidates("src/main"), vec!["src/main", "src/main.aipo"]);
    assert_eq!(entry_candidates("lib/main.aipo"), vec!["lib/main.aipo"]);
    assert_eq!(entry_candidates("v1.2/main"), vec!["v1.2/main", "v1.2/main.aipo", "src/v1.2/main.aipo"]);
    assert_eq!(entry_candidates(".aipo"), vec![".aipo", ".aipo", "src/.aipo"]);
}
