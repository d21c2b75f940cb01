use aipo::host::ahs::{
    FieldSchema, FunctionSchema, HandleSchema, HostSchema, ModuleSchema, ParamSchema, TypeRef,
    TypeSchema, ValueSchema, MAX_TYPE_REF_DEPTH,
};
use aipo::host::capability::{Capability, CapabilitySet};
use aipo::host::fault::DiagnosticCode;
use aipo::poppy::poppy_schema;

fn ty(name: &str) -> TypeRef {
    TypeRef { name: name.to_string(), nullable: false, args: vec![] }
}

fn param(name: &str, contract: &str) -> ParamSchema {
    ParamSchema { name: name.to_string(), ty: ty(contract), is_mut: false, is_optional: false, docs: None }
}

fn function(name: &str, params: Vec<ParamSchema>) -> FunctionSchema {
    FunctionSchema {
        name: name.to_string(),
        docs: None,
        params,
        returns: None,
        is_async: false,
        mutates_receiver: false,
        capabilities: vec![],
        subject: None,
        deprecated: None,
    }
}

fn module(name: &str) -> ModuleSchema {
    ModuleSchema {
        name: name.to_string(),
        docs: None,
        capabilities: vec![],
        types: vec![],
        handles: vec![],
        values: vec![],
        functions: vec![],
    }
}

fn host(modules: Vec<ModuleSchema>) -> HostSchema {
    HostSchema { host: "h".to_string(), version: "1".to_string(), modules }
}

/// The headless test surface: one module `world` under `poppy`, a handle, a type, a
/// value, and two functions.
fn surface() -> HostSchema {
    let mut world = module("world");
    world.capabilities = vec!["poppy".to_string()];
    world.handles = vec![HandleSchema {
        name: "Entity".to_string(),
        docs: None,
        operations: vec!["position".to_string(), "set_position".to_string()],
        capabilities: vec![],
        stale_is_none: false,
    }];
    world.types = vec![TypeSchema {
        name: "Vec2".to_string(),
        docs: None,
        fields: vec![
            FieldSchema { name: "x".to_string(), ty: ty("Float") },
            FieldSchema { name: "y".to_string(), ty: ty("Float") },
        ],
    }];
    world.values = vec![ValueSchema { name: "origin".to_string(), ty: ty("Vec2"), docs: None }];
    let mut spawn = function("spawn", vec![param("at", "Vec2")]);
    spawn.returns = Some(ty("Entity"));
    spawn.subject = Some("at".to_string());
    spawn.docs = Some("spawns an entity".to_string());
    let mut tick = function("tick", vec![param("count", "Int")]);
    tick.returns = Some(TypeRef { name: "Int".to_string(), nullable: true, args: vec![] });
    tick.is_async = true;
    tick.capabilities = vec!["poppy.ecs".to_string()];
    world.functions = vec![spawn, tick];
    HostSchema {
        host: "headless-test-host".to_string(),
        version: "0.1.0".to_string(),
        modules: vec![world],
    }
}

fn fault_message(schema: &HostSchema) -> String {
    schema.validate().expect_err("invalid surface").message()
}

#[test]
fn test_well_formed_surface_is_accepted() {
    let schema = surface();
    assert!(schema.validate().is_ok());
    assert_eq!(schema.host, "headless-test-host");
    assert_eq!(schema.modules.len(), 1);
    let spawn = schema.function("world", "spawn").expect("declared");
    assert_eq!(spawn.returns.as_ref().map(|ty| ty.name.as_str()), Some("Entity"));
    assert_eq!(spawn.subject.as_deref(), Some("at"));
    assert!(schema.function("world", "missing").is_none());
}

#[test]
fn test_declared_capabilities_cover_modules_handles_and_functions() {
    let schema = surface();
    let declared: Vec<String> = schema
        .declared_capabilities()
        .iter()
        .map(|capability| capability.name().to_string())
        .collect();
    assert_eq!(declared, vec!["poppy".to_string()]);
}

#[test]
fn test_missing_capabilities_are_reported_before_running() {
    let schema = surface();
    let denied = CapabilitySet::none();
    let missing = schema.missing_capabilities(&denied);
    assert_eq!(missing.iter().map(Capability::name).collect::<Vec<_>>(), vec!["poppy"]);
    let fault = schema.require_capabilities(&denied).expect_err("denied by default");
    assert_eq!(fault.code(), DiagnosticCode::AIPO_RT_CAPABILITY_DENIED);

    let granted = CapabilitySet::from_capabilities(vec![Capability::parse("poppy").expect("valid")]);
    assert!(schema.require_capabilities(&granted).is_ok());
}

#[test]
fn test_duplicate_names_are_rejected() {
    let mut m = module("m");
    m.functions = vec![function("f", vec![]), function("f", vec![])];
    let message = fault_message(&host(vec![m]));
    assert!(message.contains("declared more than once"), "{message}");
}

#[test]
fn test_subject_must_name_a_parameter() {
    let mut m = module("m");
    let mut f = function("f", vec![param("a", "Int")]);
    f.subject = Some("b".to_string());
    m.functions = vec![f];
    let message = fault_message(&host(vec![m]));
    assert!(message.contains("subject 'b'"), "{message}");
}

#[test]
fn test_async_function_cannot_take_a_trailing_block() {
    let mut m = module("m");
    let mut f = function("f", vec![param("body", "Function")]);
    f.is_async = true;
    f.subject = Some("body".to_string());
    m.functions = vec![f];
    let message = fault_message(&host(vec![m]));
    assert!(message.contains("cannot also take a trailing block"), "{message}");
}

#[test]
fn test_malformed_capability_is_rejected() {
    let mut m = module("m");
    m.capabilities = vec!["Clock.Wall".to_string()];
    let message = fault_message(&host(vec![m]));
    assert!(message.contains("Clock"), "{message}");
}

#[test]
fn test_empty_host_name_is_rejected() {
    let schema = HostSchema { host: String::new(), version: "1".to_string(), modules: vec![] };
    assert!(schema.validate().is_err());
}

#[test]
fn test_empty_names_are_rejected_across_categories() {
    let mut empty_type = module("m");
    empty_type.types = vec![TypeSchema { name: String::new(), docs: None, fields: vec![] }];
    let mut empty_value = module("m");
    empty_value.values = vec![ValueSchema { name: String::new(), ty: ty("Int"), docs: None }];
    let mut empty_param = module("m");
    empty_param.functions = vec![function("f", vec![param("", "Int")])];
    let mut empty_field = module("m");
    empty_field.types = vec![TypeSchema {
        name: "T".to_string(),
        docs: None,
        fields: vec![FieldSchema { name: String::new(), ty: ty("Int") }],
    }];
    let cases = [
        (empty_type, "type name is empty"),
        (empty_value, "value name is empty"),
        (empty_param, "parameter name is empty"),
        (empty_field, "field name is empty"),
    ];
    for (m, expected) in cases {
        let message = fault_message(&host(vec![m]));
        assert!(message.contains(expected), "expected '{expected}' in: {message}");
    }
}

#[test]
fn test_duplicate_fields_and_operations_are_rejected() {
    let mut duplicate_field = module("m");
    duplicate_field.types = vec![TypeSchema {
        name: "T".to_string(),
        docs: None,
        fields: vec![
            FieldSchema { name: "x".to_string(), ty: ty("Int") },
            FieldSchema { name: "x".to_string(), ty: ty("Int") },
        ],
    }];
    let message = fault_message(&host(vec![duplicate_field]));
    assert!(message.contains("field is declared more than once"), "{message}");

    let handle = |operations: Vec<String>| HandleSchema {
        name: "E".to_string(),
        docs: None,
        operations,
        capabilities: vec![],
        stale_is_none: false,
    };
    let mut duplicate_operation = module("m");
    duplicate_operation.handles = vec![handle(vec!["pos".to_string(), "pos".to_string()])];
    let message = fault_message(&host(vec![duplicate_operation]));
    assert!(message.contains("operation is declared more than once"), "{message}");

    let mut empty_operation = module("m");
    empty_operation.handles = vec![handle(vec![String::new()])];
    let message = fault_message(&host(vec![empty_operation]));
    assert!(message.contains("operation name is empty"), "{message}");
}

#[test]
fn test_required_parameter_cannot_follow_an_optional_one() {
    let mut m = module("m");
    let mut a = param("a", "Int");
    a.is_optional = true;
    m.functions = vec![function("f", vec![a, param("b", "Int")])];
    let message = fault_message(&host(vec![m]));
    assert!(message.contains("required parameter cannot follow an optional"), "{message}");
}

#[test]
fn test_subject_cannot_be_optional() {
    let mut m = module("m");
    let mut body = param("body", "Function");
    body.is_optional = true;
    let mut f = function("f", vec![body]);
    f.subject = Some("body".to_string());
    m.functions = vec![f];
    let message = fault_message(&host(vec![m]));
    assert!(message.contains("subject 'body' is optional"), "{message}");
}

#[test]
fn test_contract_name_shape_and_depth_are_bounded() {
    let mut spaced = module("m");
    spaced.values = vec![ValueSchema { name: "v".to_string(), ty: ty(" Int"), docs: None }];
    let message = fault_message(&host(vec![spaced]));
    assert!(message.contains("whitespace"), "{message}");

    let mut nested = ty("T");
    for _ in 0..(MAX_TYPE_REF_DEPTH + 8) {
        nested = TypeRef { name: "T".to_string(), nullable: false, args: vec![nested] };
    }
    let mut deep = module("m");
    deep.values = vec![ValueSchema { name: "v".to_string(), ty: nested, docs: None }];
    let message = fault_message(&host(vec![deep]));
    assert!(message.contains("nesting exceeds"), "{message}");
}

#[test]
fn test_declared_capabilities_ignore_malformed_names() {
    let schema = HostSchema {
        host: "h".to_string(),
        version: "1".to_string(),
        modules: vec![ModuleSchema {
            name: "m".to_string(),
            docs: None,
            capabilities: vec!["Clock.Wall".to_string(), "clock".to_string()],
            types: vec![],
            handles: vec![],
            values: vec![],
            functions: vec![],
        }],
    };
    assert!(schema.validate().is_err());
    let declared: Vec<String> = schema
        .declared_capabilities()
        .iter()
        .map(|capability| capability.name().to_string())
        .collect();
    assert_eq!(declared, vec!["clock".to_string()]);
}

#[test]
fn test_poppy_schema_validates_cleanly() {
    let schema = poppy_schema();
    let problems = schema.validate();
    assert!(problems.is_ok(), "schema problems: {problems:?}");
}

#[test]
fn test_poppy_schema_declared_capabilities() {
    let schema = poppy_schema();
    let caps = schema.declared_capabilities();
    assert!(caps.allows(&Capability::parse("poppy.ecs").unwrap()));
    assert!(caps.allows(&Capability::parse("poppy.random").unwrap()));
}

#[test]
fn poppy_schema_lists_the_engine_surface() {
    let schema = poppy_schema();
    assert_eq!(schema.host, "poppy");
    assert_eq!(schema.version, "0.1.0");
    let names: Vec<&str> = schema.modules[0].functions.iter().map(|f| f.name.as_str()).collect();
    assert_eq!(
        names,
        vec![
            "spawn", "despawn", "query", "get_position", "set_position", "get_velocity",
            "set_velocity", "random_float", "random_int", "step", "digest"
        ]
    );
    let random_int = schema.function("poppy", "random_int").expect("declared");
    assert_eq!(random_int.capabilities, vec!["poppy.random".to_string()]);
    assert_eq!(random_int.params.len(), 2);
    assert_eq!(schema.modules[0].handles[0].operations.len(), 5);
}
