use aipo::runtime::error::RuntimeError;
use aipo::runtime::graph::ModuleGraph;
use aipo::runtime::module::{ModuleRecord, ModuleState};

#[test]
fn test_module_graph_empty() {
    let graph = ModuleGraph::new();
    assert!(graph.is_empty());
    assert_eq!(graph.len(), 0);
    let order = graph.topological_init_order().unwrap();
    assert!(order.is_empty());
}

#[test]
fn test_module_graph_single_module() {
    let mut graph = ModuleGraph::new();
    graph.register(ModuleRecord::new("app.main", vec![], None));

    assert_eq!(graph.len(), 1);
    let order = graph.topological_init_order().unwrap();
    assert_eq!(order, vec!["app.main"]);
}

#[test]
fn test_module_graph_linear_dependencies() {
    let mut graph = ModuleGraph::new();
    graph.register(ModuleRecord::new(
        "app.main",
        vec!["app.service".to_string()],
        None,
    ));
    graph.register(ModuleRecord::new(
        "app.service",
        vec!["app.db".to_string()],
        None,
    ));
    graph.register(ModuleRecord::new("app.db", vec![], None));

    let order = graph.topological_init_order().unwrap();
    assert_eq!(order, vec!["app.db", "app.service", "app.main"]);
}

#[test]
fn test_module_graph_tie_breaking_order() {
    // Both b and a have no dependencies. Canonical path tie-break should place "a" before "b".
    let mut graph = ModuleGraph::new();
    graph.register(ModuleRecord::new("b", vec![], None));
    graph.register(ModuleRecord::new("a", vec![], None));
    graph.register(ModuleRecord::new(
        "c",
        vec!["a".to_string(), "b".to_string()],
        None,
    ));

    let order = graph.topological_init_order().unwrap();
    assert_eq!(order, vec!["a", "b", "c"]);
}

#[test]
fn test_module_graph_diamond_dependency() {
    // A -> B, C
    // B -> D
    // C -> D
    // D -> (none)
    let mut graph = ModuleGraph::new();
    graph.register(ModuleRecord::new("d", vec![], None));
    graph.register(ModuleRecord::new("b", vec!["d".to_string()], None));
    graph.register(ModuleRecord::new("c", vec!["d".to_string()], None));
    graph.register(ModuleRecord::new(
        "a",
        vec!["b".to_string(), "c".to_string()],
        None,
    ));

    let order = graph.topological_init_order().unwrap();
    // d must be first, then b before c (tie-break), then a
    assert_eq!(order, vec!["d", "b", "c", "a"]);
}

#[test]
fn test_module_graph_missing_dependency() {
    let mut graph = ModuleGraph::new();
    graph.register(ModuleRecord::new(
        "a",
        vec!["nonexistent".to_string()],
        None,
    ));

    let err = graph.topological_init_order().unwrap_err();
    match err {
        RuntimeError::ModuleNotFound { name } => assert_eq!(name, "nonexistent"),
        other => panic!("expected ModuleNotFound, got {other:?}"),
    }
}

#[test]
fn test_module_graph_direct_cycle() {
    let mut graph = ModuleGraph::new();
    graph.register(ModuleRecord::new("a", vec!["b".to_string()], None));
    graph.register(ModuleRecord::new("b", vec!["a".to_string()], None));

    let err = graph.topological_init_order().unwrap_err();
    match err {
        RuntimeError::CyclicDependency { cycle } => {
            assert!(cycle.contains(&"a".to_string()));
            assert!(cycle.contains(&"b".to_string()));
        }
        other => panic!("expected CyclicDependency, got {other:?}"),
    }
}

#[test]
fn test_module_graph_indirect_cycle() {
    let mut graph = ModuleGraph::new();
    graph.register(ModuleRecord::new("a", vec!["b".to_string()], None));
    graph.register(ModuleRecord::new("b", vec!["c".to_string()], None));
    graph.register(ModuleRecord::new("c", vec!["a".to_string()], None));

    let err = graph.topological_init_order().unwrap_err();
    match err {
        RuntimeError::CyclicDependency { cycle } => {
            assert!(cycle.len() >= 3);
        }
        other => panic!("expected CyclicDependency, got {other:?}"),
    }
}

#[test]
fn test_module_record_lifecycle() {
    let mut record = ModuleRecord::new("math", vec![], None);
    assert_eq!(record.state, ModuleState::Uninitialized);
    assert!(!record.is_initialized());

    record.state = ModuleState::Initializing;
    assert!(!record.is_initialized());

    record.state = ModuleState::Initialized;
    assert!(record.is_initialized());

    record.state = ModuleState::Failed("syntax error".to_string());
    assert!(!record.is_initialized());
}

#[test]
fn test_module_graph_self_cycle_reports_the_node() {
    let mut graph = ModuleGraph::new();
    assert!(graph.register(ModuleRecord::new("a", vec!["a".to_string()], None)));

    let err = graph.topological_init_order().unwrap_err();
    match err {
        RuntimeError::CyclicDependency { cycle } => {
            assert_eq!(cycle, vec!["a".to_string(), "a".to_string()]);
        }
        other => panic!("expected CyclicDependency, got {other:?}"),
    }
}

#[test]
fn test_module_graph_rejects_duplicate_and_malformed_paths() {
    let mut graph = ModuleGraph::new();
    assert!(graph.register(ModuleRecord::new("app", vec![], None)));
    assert!(
        !graph.register(ModuleRecord::new("app", vec![], None)),
        "duplicate registration is rejected"
    );
    assert_eq!(graph.len(), 1);

    assert!(
        !graph.register(ModuleRecord::new("", vec![], None)),
        "empty path is rejected"
    );
    assert!(
        !graph.register(ModuleRecord::new(" app", vec![], None)),
        "untrimmed path is rejected"
    );
    assert!(
        !graph.register(ModuleRecord::new("a..b", vec![], None)),
        "empty segment is rejected"
    );
    assert!(
        !graph.register(ModuleRecord::new("x", vec!["".to_string()], None)),
        "empty dependency is rejected"
    );
    assert!(
        !graph.register(ModuleRecord::new(
            "y",
            vec!["d".to_string(), "d".to_string()],
            None
        )),
        "duplicate dependency is rejected"
    );
    assert_eq!(graph.len(), 1);
}

#[test]
fn test_module_graph_missing_dependency_is_deterministic() {
    let mut graph = ModuleGraph::new();
    graph.register(ModuleRecord::new(
        "m",
        vec!["zeta".to_string(), "alpha".to_string()],
        None,
    ));
    // The lexicographically smallest missing dependency wins regardless of the
    // declaration order inside the record.
    match graph.topological_init_order().unwrap_err() {
        RuntimeError::ModuleNotFound { name } => assert_eq!(name, "alpha"),
        other => panic!("expected ModuleNotFound, got {other:?}"),
    }
}

#[test]
fn module_graph_order_is_repeatable_and_puts_dependencies_first() {
    let mut graph = ModuleGraph::new();
    assert!(graph.register(ModuleRecord::new("ui", vec!["core".to_string(), "net".to_string()], None)));
    assert!(graph.register(ModuleRecord::new("net", vec!["core".to_string()], None)));
    assert!(graph.register(ModuleRecord::new("core", vec![], None)));
    assert!(graph.register(ModuleRecord::new("audio", vec![], None)));
    let first = graph.topological_init_order().unwrap();
    let second = graph.topological_init_order().unwrap();
    assert_eq!(first, second);
    assert_eq!(first, vec!["audio", "core", "net", "ui"]);
}

#[test]
fn module_graph_lookup_and_in_place_update() {
    let mut graph = ModuleGraph::new();
    assert!(graph.register(ModuleRecord::new("game.player", vec![], Some(vec![1, 2, 3]))));
    assert!(graph.get("game.enemy").is_none());
    assert!(graph.get_mut("game.enemy").is_none());
    assert_eq!(graph.get("game.player").unwrap().bytecode, Some(vec![1, 2, 3]));
    graph.get_mut("game.player").unwrap().state = ModuleState::Initialized;
    assert!(graph.get("game.player").unwrap().is_initialized());
    assert!(!graph.register(ModuleRecord::new("game.", vec![], None)));
    assert!(!graph.register(ModuleRecord::new(".game", vec![], None)));
    assert!(!graph.register(ModuleRecord::new("game ", vec![], None)));
    assert!(!graph.register(ModuleRecord::new("z", vec!["a b ".to_string()], None)));
    assert!(graph.register(ModuleRecord::new("a b", vec![], None)));
}

#[test]
fn module_graph_cycle_behind_a_ready_module_is_reported() {
    let mut graph = ModuleGraph::new();
    assert!(graph.register(ModuleRecord::new("base", vec![], None)));
    assert!(graph.register(ModuleRecord::new("left", vec!["base".to_string(), "right".to_string()], None)));
    assert!(graph.register(ModuleRecord::new("right", vec!["left".to_string()], None)));
    match graph.topological_init_order().unwrap_err() {
        RuntimeError::CyclicDependency { cycle } => {
            assert_eq!(cycle.first(), cycle.last());
            assert!(cycle.contains(&"left".to_string()));
            assert!(cycle.contains(&"right".to_string()));
            assert!(!cycle.contains(&"base".to_string()));
        }
        other => panic!("expected CyclicDependency, got {other:?}"),
    }
}
