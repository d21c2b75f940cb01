//! The Poppy game profile's host surface, described as data.
//!
//! Compiler, language server and tooling read this description to discover what the
//! engine exposes without linking to it.
use vstd::prelude::*;

use crate::text::string_views;
use crate::host::ahs::{
    FieldSchema, FunctionSchema, HandleSchema, HostSchema, ModuleSchema, ParamSchema, TypeRef,
    TypeSchema,
};

verus! {

/// A contract written by name alone: not nullable, without arguments.
pub open spec fn plain_ref(t: TypeRef, name: Seq<char>) -> bool {
    &&& t.name@ == name
    &&& !t.nullable
    &&& t.args@.len() == 0
}

/// `docs` is present and reads `text`.
pub open spec fn documented(docs: Option<String>, text: Seq<char>) -> bool {
    docs matches Some(d) && d@ == text
}

/// `f` returns the plain contract `result_ty` names, or nothing where it names none.
pub open spec fn returns_plain(f: FunctionSchema, result_ty: Option<Seq<char>>) -> bool {
    match result_ty {
        Some(r) => f.returns matches Some(t) && plain_ref(t, r),
        None => f.returns is None,
    }
}

/// `f` is the named function with these documentation, parameters (name and plain
/// contract, none mutable or optional, none documented), return contract and single
/// capability; it is synchronous, leaves its receiver alone, binds no subject and is not
/// deprecated.
pub open spec fn has_signature(
    f: FunctionSchema,
    name: Seq<char>,
    docs: Seq<char>,
    params: Seq<(Seq<char>, Seq<char>)>,
    result_ty: Option<Seq<char>>,
    capability: Seq<char>,
) -> bool {
    &&& f.name@ == name
    &&& documented(f.docs, docs)
    &&& f.params@.len() == params.len()
    &&& forall|j: int| 0 <= j < params.len() ==> {
        let p = #[trigger] f.params@[j];
        &&& p.name@ == params[j].0
        &&& plain_ref(p.ty, params[j].1)
        &&& !p.is_mut
        &&& !p.is_optional
        &&& p.docs is None
    }
    &&& returns_plain(f, result_ty)
    &&& !f.is_async
    &&& !f.mutates_receiver
    &&& string_views(f.capabilities@) == seq![capability]
    &&& f.subject is None
    &&& f.deprecated is None
}

/// `t` is the named type with this documentation and two `Float` fields `x` and `y`.
pub open spec fn is_planar(t: TypeSchema, name: Seq<char>, docs: Seq<char>) -> bool {
    &&& t.name@ == name
    &&& documented(t.docs, docs)
    &&& t.fields@.len() == 2
    &&& t.fields@[0].name@ == "x"@
    &&& plain_ref(t.fields@[0].ty, "Float"@)
    &&& t.fields@[1].name@ == "y"@
    &&& plain_ref(t.fields@[1].ty, "Float"@)
}

fn plain(name: &str) -> (t: TypeRef)
    ensures
        plain_ref(t, name@),
{
    TypeRef { name: String::from_str(name), nullable: false, args: Vec::new() }
}

fn param(name: &str, ty: &str) -> (p: ParamSchema)
    ensures
        p.name@ == name@,
        plain_ref(p.ty, ty@),
        !p.is_mut,
        !p.is_optional,
        p.docs == None::<String>,
{
    ParamSchema {
        name: String::from_str(name),
        ty: plain(ty),
        is_mut: false,
        is_optional: false,
        docs: None,
    }
}

fn one_text(s: &str) -> (v: Vec<String>)
    ensures
        string_views(v@) == seq![s@],
{
    let mut v: Vec<String> = Vec::new();
    v.push(String::from_str(s));
    assert(string_views(v@) =~= seq![s@]);
    v
}

fn function_entry(
    name: &str,
    docs: &str,
    params: Vec<ParamSchema>,
    result_ty: Option<&str>,
    capability: &str,
) -> (f: FunctionSchema)
    ensures
        f.name@ == name@,
        documented(f.docs, docs@),
        f.params@ == params@,
        returns_plain(f, (match result_ty {
            Some(r) => Some(r@),
            None => None,
        })),
        !f.is_async,
        !f.mutates_receiver,
        string_views(f.capabilities@) == seq![capability@],
        f.subject == None::<String>,
        f.deprecated == None::<String>,
{
    let result = match result_ty {
        Some(r) => Some(plain(r)),
        None => None,
    };
    FunctionSchema {
        name: String::from_str(name),
        docs: Some(String::from_str(docs)),
        params,
        returns: result,
        is_async: false,
        mutates_receiver: false,
        capabilities: one_text(capability),
        subject: None,
        deprecated: None,
    }
}

fn planar(name: &str, docs: &str) -> (t: TypeSchema)
    ensures
        is_planar(t, name@, docs@),
{
    let mut fields: Vec<FieldSchema> = Vec::new();
    fields.push(FieldSchema { name: String::from_str("x"), ty: plain("Float") });
    fields.push(FieldSchema { name: String::from_str("y"), ty: plain("Float") });
    TypeSchema { name: String::from_str(name), docs: Some(String::from_str(docs)), fields }
}

fn entity_only() -> (params: Vec<ParamSchema>)
    ensures
        params@.len() == 1,
        params@[0].name@ == "entity"@,
        plain_ref(params@[0].ty, "Entity"@),
        !params@[0].is_mut && !params@[0].is_optional && params@[0].docs == None::<String>,
{
    let mut params: Vec<ParamSchema> = Vec::new();
    params.push(param("entity", "Entity"));
    params
}

fn with_pair(first: &str, first_ty: &str, x: &str, y: &str) -> (params: Vec<ParamSchema>)
    ensures
        params@.len() == 3,
        params@[0].name@ == first@,
        plain_ref(params@[0].ty, first_ty@),
        params@[1].name@ == x@,
        plain_ref(params@[1].ty, "Float"@),
        params@[2].name@ == y@,
        plain_ref(params@[2].ty, "Float"@),
        forall|j: int|
            0 <= j < 3 ==> !(#[trigger] params@[j]).is_mut && !params@[j].is_optional
                && params@[j].docs == None::<String>,
{
    let mut params: Vec<ParamSchema> = Vec::new();
    params.push(param(first, first_ty));
    params.push(param(x, "Float"));
    params.push(param(y, "Float"));
    params
}

fn entity_functions(functions: &mut Vec<FunctionSchema>)
    requires
        old(functions)@.len() == 0,
    ensures
        final(functions)@.len() == 7,
        has_signature(
            final(functions)@[0],
            "spawn"@,
            "Spawns a new entity with a tag and initial position"@,
            seq![("tag"@, "String"@), ("x"@, "Float"@), ("y"@, "Float"@)],
            Some("Entity"@),
            "poppy.ecs"@,
        ),
        has_signature(
            final(functions)@[1],
            "despawn"@,
            "Queues an entity for removal at the next safe point"@,
            seq![("entity"@, "Entity"@)],
            None,
            "poppy.ecs"@,
        ),
        has_signature(
            final(functions)@[2],
            "query"@,
            "Queries all live entities with a given tag"@,
            seq![("tag"@, "String"@)],
            Some("List"@),
            "poppy.ecs"@,
        ),
        has_signature(
            final(functions)@[3],
            "get_position"@,
            "Gets the current position of an entity"@,
            seq![("entity"@, "Entity"@)],
            Some("Vec2"@),
            "poppy.ecs"@,
        ),
        has_signature(
            final(functions)@[4],
            "set_position"@,
            "Sets the position of an entity"@,
            seq![("entity"@, "Entity"@), ("x"@, "Float"@), ("y"@, "Float"@)],
            None,
            "poppy.ecs"@,
        ),
        has_signature(
            final(functions)@[5],
            "get_velocity"@,
            "Gets the current velocity of an entity"@,
            seq![("entity"@, "Entity"@)],
            Some("Vec2"@),
            "poppy.ecs"@,
        ),
        has_signature(
            final(functions)@[6],
            "set_velocity"@,
            "Sets the velocity of an entity"@,
            seq![("entity"@, "Entity"@), ("vx"@, "Float"@), ("vy"@, "Float"@)],
            None,
            "poppy.ecs"@,
        ),
{
    let mut tag: Vec<ParamSchema> = Vec::new();
    tag.push(param("tag", "String"));
    functions.push(
        function_entry(
            "spawn",
            "Spawns a new entity with a tag and initial position",
            with_pair("tag", "String", "x", "y"),
            Some("Entity"),
            "poppy.ecs",
        ),
    );
    functions.push(
        function_entry(
            "despawn",
            "Queues an entity for removal at the next safe point",
            entity_only(),
            None,
            "poppy.ecs",
        ),
    );
    functions.push(
        function_entry(
            "query",
            "Queries all live entities with a given tag",
            tag,
            Some("List"),
            "poppy.ecs",
        ),
    );
    functions.push(
        function_entry(
            "get_position",
            "Gets the current position of an entity",
            entity_only(),
            Some("Vec2"),
            "poppy.ecs",
        ),
    );
    functions.push(
        function_entry(
            "set_position",
            "Sets the position of an entity",
            with_pair("entity", "Entity", "x", "y"),
            None,
            "poppy.ecs",
        ),
    );
    functions.push(
        function_entry(
            "get_velocity",
            "Gets the current velocity of an entity",
            entity_only(),
            Some("Vec2"),
            "poppy.ecs",
        ),
    );
    functions.push(
        function_entry(
            "set_velocity",
            "Sets the velocity of an entity",
            with_pair("entity", "Entity", "vx", "vy"),
            None,
            "poppy.ecs",
        ),
    );
}

fn world_functions(functions: &mut Vec<FunctionSchema>)
    requires
        old(functions)@.len() == 7,
    ensures
        final(functions)@.len() == 11,
        final(functions)@.subrange(0, 7) == old(functions)@,
        has_signature(
            final(functions)@[7],
            "random_float"@,
            "Generates a pseudo-random float in [0.0, 1.0)"@,
            seq![],
            Some("Float"@),
            "poppy.random"@,
        ),
        has_signature(
            final(functions)@[8],
            "random_int"@,
            "Generates a pseudo-random integer in [min, max]"@,
            seq![("min"@, "Int"@), ("max"@, "Int"@)],
            Some("Int"@),
            "poppy.random"@,
        ),
        has_signature(
            final(functions)@[9],
            "step"@,
            "Advances the simulation by dt and returns the state digest"@,
            seq![("dt"@, "Float"@)],
            Some("Int"@),
            "poppy.ecs"@,
        ),
        has_signature(
            final(functions)@[10],
            "digest"@,
            "Computes the deterministic state digest of the current world"@,
            seq![],
            Some("Int"@),
            "poppy.ecs"@,
        ),
{
    let mut bounds: Vec<ParamSchema> = Vec::new();
    bounds.push(param("min", "Int"));
    bounds.push(param("max", "Int"));
    let mut dt: Vec<ParamSchema> = Vec::new();
    dt.push(param("dt", "Float"));
    functions.push(
        function_entry(
            "random_float",
            "Generates a pseudo-random float in [0.0, 1.0)",
            Vec::new(),
            Some("Float"),
            "poppy.random",
        ),
    );
    functions.push(
        function_entry(
            "random_int",
            "Generates a pseudo-random integer in [min, max]",
            bounds,
            Some("Int"),
            "poppy.random",
        ),
    );
    functions.push(
        function_entry(
            "step",
            "Advances the simulation by dt and returns the state digest",
            dt,
            Some("Int"),
            "poppy.ecs",
        ),
    );
    functions.push(
        function_entry(
            "digest",
            "Computes the deterministic state digest of the current world",
            Vec::new(),
            Some("Int"),
            "poppy.ecs",
        ),
    );
}

/// The canonical host surface of the Poppy game profile: one module `poppy` (capability
/// `poppy`) with the types `Vec2` and `Transform`, the handle `Entity` and eleven
/// functions.
pub fn poppy_schema() -> (schema: HostSchema)
    ensures
        schema.host@ == "poppy"@,
        schema.version@ == "0.1.0"@,
        schema.modules@.len() == 1,
        schema.modules@[0].name@ == "poppy"@,
        documented(schema.modules@[0].docs, "Poppy Game Engine reference profile for Aipo"@),
        string_views(schema.modules@[0].capabilities@) == seq!["poppy"@],
        schema.modules@[0].types@.len() == 2,
        is_planar(schema.modules@[0].types@[0], "Vec2"@, "2D vector with x and y components"@),
        is_planar(schema.modules@[0].types@[1], "Transform"@, "Entity position in 2D space"@),
        schema.modules@[0].handles@.len() == 1,
        schema.modules@[0].handles@[0].name@ == "Entity"@,
        documented(schema.modules@[0].handles@[0].docs, "Generational handle to a game entity"@),
        string_views(schema.modules@[0].handles@[0].operations@) == seq![
            "position"@,
            "set_position"@,
            "velocity"@,
            "set_velocity"@,
            "tag"@,
        ],
        string_views(schema.modules@[0].handles@[0].capabilities@) == seq!["poppy.ecs"@],
        !schema.modules@[0].handles@[0].stale_is_none,
        schema.modules@[0].values@.len() == 0,
        schema.modules@[0].functions@.len() == 11,
        has_signature(
            schema.modules@[0].functions@[0],
            "spawn"@,
            "Spawns a new entity with a tag and initial position"@,
            seq![("tag"@, "String"@), ("x"@, "Float"@), ("y"@, "Float"@)],
            Some("Entity"@),
            "poppy.ecs"@,
        ),
        has_signature(
            schema.modules@[0].functions@[1],
            "despawn"@,
            "Queues an entity for removal at the next safe point"@,
            seq![("entity"@, "Entity"@)],
            None,
            "poppy.ecs"@,
        ),
        has_signature(
            schema.modules@[0].functions@[2],
            "query"@,
            "Queries all live entities with a given tag"@,
            seq![("tag"@, "String"@)],
            Some("List"@),
            "poppy.ecs"@,
        ),
        has_signature(
            schema.modules@[0].functions@[3],
            "get_position"@,
            "Gets the current position of an entity"@,
            seq![("entity"@, "Entity"@)],
            Some("Vec2"@),
            "poppy.ecs"@,
        ),
        has_signature(
            schema.modules@[0].functions@[4],
            "set_position"@,
            "Sets the position of an entity"@,
            seq![("entity"@, "Entity"@), ("x"@, "Float"@), ("y"@, "Float"@)],
            None,
            "poppy.ecs"@,
        ),
        has_signature(
            schema.modules@[0].functions@[5],
            "get_velocity"@,
            "Gets the current velocity of an entity"@,
            seq![("entity"@, "Entity"@)],
            Some("Vec2"@),
            "poppy.ecs"@,
        ),
        has_signature(
            schema.modules@[0].functions@[6],
            "set_velocity"@,
            "Sets the velocity of an entity"@,
            seq![("entity"@, "Entity"@), ("vx"@, "Float"@), ("vy"@, "Float"@)],
            None,
            "poppy.ecs"@,
        ),
        has_signature(
            schema.modules@[0].functions@[7],
            "random_float"@,
            "Generates a pseudo-random float in [0.0, 1.0)"@,
            seq![],
            Some("Float"@),
            "poppy.random"@,
        ),
        has_signature(
            schema.modules@[0].functions@[8],
            "random_int"@,
            "Generates a pseudo-random integer in [min, max]"@,
            seq![("min"@, "Int"@), ("max"@, "Int"@)],
            Some("Int"@),
            "poppy.random"@,
        ),
        has_signature(
            schema.modules@[0].functions@[9],
            "step"@,
            "Advances the simulation by dt and returns the state digest"@,
            seq![("dt"@, "Float"@)],
            Some("Int"@),
            "poppy.ecs"@,
        ),
        has_signature(
            schema.modules@[0].functions@[10],
            "digest"@,
            "Computes the deterministic state digest of the current world"@,
            seq![],
            Some("Int"@),
            "poppy.ecs"@,
        ),
{
    let mut types: Vec<TypeSchema> = Vec::new();
    types.push(planar("Vec2", "2D vector with x and y components"));
    types.push(planar("Transform", "Entity position in 2D space"));
    let mut operations: Vec<String> = Vec::new();
    operations.push(String::from_str("position"));
    operations.push(String::from_str("set_position"));
    operations.push(String::from_str("velocity"));
    operations.push(String::from_str("set_velocity"));
    operations.push(String::from_str("tag"));
    assert(string_views(operations@) =~= seq![
        "position"@,
        "set_position"@,
        "velocity"@,
        "set_velocity"@,
        "tag"@,
    ]);
    let mut handles: Vec<HandleSchema> = Vec::new();
    handles.push(
        HandleSchema {
            name: String::from_str("Entity"),
            docs: Some(String::from_str("Generational handle to a game entity")),
            operations,
            capabilities: one_text("poppy.ecs"),
            stale_is_none: false,
        },
    );
    let mut functions: Vec<FunctionSchema> = Vec::new();
    entity_functions(&mut functions);
    let ghost first = functions@;
    world_functions(&mut functions);
    assert(functions@.subrange(0, 7) == first);
    assert(forall|i: int| 0 <= i < 7 ==> functions@[i] == #[trigger] first[i]) by {
        assert forall|i: int| 0 <= i < 7 implies functions@[i] == #[trigger] first[i] by {
            assert(functions@.subrange(0, 7)[i] == functions@[i]);
        }
    }
    let mut modules: Vec<ModuleSchema> = Vec::new();
    modules.push(
        ModuleSchema {
            name: String::from_str("poppy"),
            docs: Some(String::from_str("Poppy Game Engine reference profile for Aipo")),
            capabilities: one_text("poppy"),
            types,
            handles,
            values: Vec::new(),
            functions,
        },
    );
    HostSchema {
        host: String::from_str("poppy"),
        version: String::from_str("0.1.0"),
        modules,
    }
}

} // verus!
