use aipo::host::fault::DiagnosticCode;
use aipo::runtime::error::RuntimeError;
use aipo::runtime::native::{NativeFunctionMeta, NativeRegistry};

#[test]
fn test_native_registry_operations() {
    let mut registry = NativeRegistry::new();
    registry.register(NativeFunctionMeta::new("len", 1, None, "collection length"));
    registry.register(NativeFunctionMeta::new("abs", 1, Some("math"), "abs value"));
    registry.register(NativeFunctionMeta::new("sin", 1, Some("math"), "sine"));
    registry.register(NativeFunctionMeta::new(
        "upper",
        1,
        Some("string"),
        "to uppercase",
    ));

    let prelude = registry.list_prelude();
    assert_eq!(prelude.len(), 1);
    assert_eq!(prelude[0].name, "len");

    let math_funcs = registry.list_module("math");
    assert_eq!(math_funcs.len(), 2);

    let modules = registry.list_modules();
    assert_eq!(modules, vec!["math", "string"]);

    let found = registry.get(Some("math"), "abs");
    assert!(found.is_some());
    assert_eq!(found.unwrap().arity, 1);

    let not_found = registry.get(None, "abs");
    assert!(not_found.is_none());
}

#[test]
fn test_error_display_and_codes_cover_all_variants() {
    let cases = [
        (
            RuntimeError::ModuleNotFound {
                name: "m".to_string(),
            },
            DiagnosticCode::AIPO_SEM_UNKNOWN_MODULE,
            "m",
        ),
        (
            RuntimeError::CyclicDependency {
                cycle: vec!["a".to_string(), "b".to_string()],
            },
            DiagnosticCode::AIPO_SEM_IMPORT_CYCLE,
            "a",
        ),
        (
            RuntimeError::ExportNotFound {
                module: "m".to_string(),
                symbol: "s".to_string(),
            },
            DiagnosticCode::AIPO_SEM_EXPORT_UNKNOWN,
            "s",
        ),
        (
            RuntimeError::InitializationFailed {
                module: "m".to_string(),
                reason: "boom".to_string(),
            },
            DiagnosticCode::AIPO_RT_MODULE_INIT_FAILED,
            "boom",
        ),
    ];
    for (error, code, fragment) in cases {
        assert_eq!(error.diagnostic_code(), code);
        let text = error.to_string();
        assert!(text.contains(fragment), "names the participant: {text}");
        assert!(text.contains(code.as_str()), "carries the stable code: {text}");
    }
}

#[test]
fn cycle_text_joins_with_arrows() {
    let error = RuntimeError::CyclicDependency {
        cycle: vec!["a".to_string(), "b".to_string(), "a".to_string()],
    };
    assert_eq!(
        error.to_string(),
        "runtime error [AIPO_SEM_IMPORT_CYCLE]: circular module dependency: a -> b -> a"
    );
}

#[test]
fn test_native_registry_collisions_and_ordering_are_deterministic() {
    let mut registry = NativeRegistry::new();
    assert!(!registry.register(NativeFunctionMeta::new("b", 1, Some("math"), "bee")));
    assert!(!registry.register(NativeFunctionMeta::new("a", 1, Some("math"), "ay")));
    assert!(!registry.register(NativeFunctionMeta::new("z", 1, None, "zed")));
    assert!(registry.register(NativeFunctionMeta::new("a", 2, Some("math"), "ay v2")));

    let names: Vec<&str> = registry
        .list_module("math")
        .iter()
        .map(|meta| meta.name.as_str())
        .collect();
    assert_eq!(names, vec!["a", "b"]);
    assert_eq!(registry.get(Some("math"), "a").unwrap().arity, 2);

    assert!(!registry.register(NativeFunctionMeta::new("p", 0, Some(""), "prelude")));
    assert_eq!(registry.list_prelude().len(), 2);
    assert_eq!(registry.list_modules(), vec!["math"]);
    assert!(registry.get(Some(""), "p").is_none());
    assert!(registry.get(None, "p").is_some());
    assert!(registry.get(Some("Math"), "a").is_none());
    assert!(registry.get(Some("math"), "A").is_none());
}

#[test]
fn native_meta_builders_set_flags() {
    let meta = NativeFunctionMeta::new("now", 0, Some("clock"), "wall time")
        .with_async()
        .with_capabilities(&["clock.wall"]);
    assert!(meta.is_async);
    assert_eq!(meta.capabilities, vec!["clock.wall"]);
    assert_eq!(meta.module.as_deref(), Some("clock"));
}
