//! The Aipo Host Schema (AHS): a host surface described as data.
//!
//! A description is data before it is truth: [`HostSchema::validate`] rejects a surface
//! that is internally inconsistent (duplicate names, a subject that is not a parameter, a
//! malformed capability), reporting every problem at once. Whether the running profile
//! grants what the surface declares is a separate question, answered by
//! [`HostSchema::missing_capabilities`] and [`HostSchema::require_capabilities`].
use vstd::prelude::*;

use crate::host::capability::{capability_kind_text, parse_capability_outcome, Capability};
use crate::host::fault::SchemaProblem;
use crate::package::lock::{one, problem_if};
use crate::text::{char_is_whitespace, chars_of, is_unicode_whitespace};
use vstd::string::*;

verus! {

/// A whole host surface.
#[derive(Debug, PartialEq, Eq)]
pub struct HostSchema {
    /// Host name, for diagnostics (`poppy`, `headless-test-host`).
    pub host: String,
    /// Host version, so a surface can be pinned.
    pub version: String,
    /// Modules the host exposes.
    pub modules: Vec<ModuleSchema>,
}

/// One module of the host surface.
#[derive(Debug, PartialEq, Eq)]
pub struct ModuleSchema {
    /// Module name as a script imports it.
    pub name: String,
    /// Optional documentation.
    pub docs: Option<String>,
    /// Capabilities every function of the module requires unless it declares its own.
    pub capabilities: Vec<String>,
    /// Types the module exposes.
    pub types: Vec<TypeSchema>,
    /// Opaque host objects the module hands out.
    pub handles: Vec<HandleSchema>,
    /// Plain host values the module exposes.
    pub values: Vec<ValueSchema>,
    /// Functions the module exposes.
    pub functions: Vec<FunctionSchema>,
}

/// A type the host exposes.
#[derive(Debug, PartialEq, Eq)]
pub struct TypeSchema {
    /// Type name.
    pub name: String,
    /// Optional documentation.
    pub docs: Option<String>,
    /// Fields, when the host exposes a struct-like type.
    pub fields: Vec<FieldSchema>,
}

/// A field of an exposed type.
#[derive(Debug, PartialEq, Eq)]
pub struct FieldSchema {
    /// Field name.
    pub name: String,
    /// Declared contract.
    pub ty: TypeRef,
}

/// A reference to a type from a signature.
#[derive(Debug, PartialEq, Eq)]
pub struct TypeRef {
    /// Contract name as it would be written in source (`Int`, `Entity`, `Task`).
    pub name: String,
    /// Whether the contract admits `none`.
    pub nullable: bool,
    /// Parametric arguments, when the host describes a parametric type.
    pub args: Vec<TypeRef>,
}

/// An opaque host object, reachable only through a handle.
#[derive(Debug, PartialEq, Eq)]
pub struct HandleSchema {
    /// Handle type name.
    pub name: String,
    /// Optional documentation.
    pub docs: Option<String>,
    /// Operations the handle supports.
    pub operations: Vec<String>,
    /// Capabilities the handle's operations require unless one declares its own.
    pub capabilities: Vec<String>,
    /// Whether a stale handle resolves to `none` rather than faulting.
    pub stale_is_none: bool,
}

/// A plain value the host exposes.
#[derive(Debug, PartialEq, Eq)]
pub struct ValueSchema {
    /// Value name.
    pub name: String,
    /// Declared contract.
    pub ty: TypeRef,
    /// Optional documentation.
    pub docs: Option<String>,
}

/// One function of the host surface.
#[derive(Debug, PartialEq, Eq)]
pub struct FunctionSchema {
    /// Function name.
    pub name: String,
    /// Optional documentation.
    pub docs: Option<String>,
    /// Parameters, in call order.
    pub params: Vec<ParamSchema>,
    /// Return contract, absent when the function returns nothing.
    pub returns: Option<TypeRef>,
    /// Whether the function is asynchronous (a `Task` handle at the call site).
    pub is_async: bool,
    /// Whether the function mutates its receiver.
    pub mutates_receiver: bool,
    /// Capabilities this function requires, on top of the module's.
    pub capabilities: Vec<String>,
    /// Trailing-block subject: the parameter a block form would bind.
    pub subject: Option<String>,
    /// Deprecation note, when the function is on its way out.
    pub deprecated: Option<String>,
}

/// A parameter of an exposed function.
#[derive(Debug, PartialEq, Eq)]
pub struct ParamSchema {
    /// Parameter name.
    pub name: String,
    /// Declared contract.
    pub ty: TypeRef,
    /// Whether the parameter is called `name!`, i.e. the callee may mutate it.
    pub is_mut: bool,
    /// Whether the parameter may be omitted.
    pub is_optional: bool,
    /// Optional documentation.
    pub docs: Option<String>,
}

/// Deepest nesting of parametric contract arguments the validator accepts.
pub const MAX_TYPE_REF_DEPTH: usize = 32;

/// The (path, message) reading of a list of schema problems.
pub open spec fn schema_pairs(problems: Seq<SchemaProblem>) -> Seq<(Seq<char>, Seq<char>)> {
    problems.map_values(|p: SchemaProblem| (p.path@, p.message@))
}

/// Nothing but whitespace: what trims to the empty text.
pub open spec fn blank(s: Seq<char>) -> bool {
    forall|i: int| 0 <= i < s.len() ==> is_unicode_whitespace(#[trigger] s[i])
}

/// Some whitespace character.
pub open spec fn has_space(s: Seq<char>) -> bool {
    exists|i: int| 0 <= i < s.len() && is_unicode_whitespace(#[trigger] s[i])
}

/// The problem of a contract name, if any.
pub open spec fn contract_name_problems(path: Seq<char>, name: Seq<char>) -> Seq<(Seq<char>, Seq<char>)> {
    if blank(name) {
        one(path, "contract name is empty"@)
    } else if has_space(name) {
        one(path, "contract name '"@ + name + "' has surrounding or embedded whitespace"@)
    } else {
        Seq::empty()
    }
}

/// The problems of a contract reference at nesting `depth`.
pub open spec fn type_ref_problems(path: Seq<char>, ty: TypeRef, depth: int) -> Seq<(Seq<char>, Seq<char>)>
    decreases 33 - depth, 0int,
{
    if depth > 32 {
        one(path, "contract nesting exceeds the supported depth of 32"@)
    } else {
        contract_name_problems(path, ty.name@) + type_args_problems(path, ty.args@, depth + 1, ty.args@.len())
    }
}

/// The problems of the first `n` contract arguments at nesting `depth`.
pub open spec fn type_args_problems(path: Seq<char>, args: Seq<TypeRef>, depth: int, n: nat) -> Seq<(Seq<char>, Seq<char>)>
    decreases 33 - depth, n,
{
    if n == 0 || depth > 33 {
        Seq::empty()
    } else {
        type_args_problems(path, args, depth, (n - 1) as nat) + type_ref_problems(path, args[n - 1], depth)
    }
}

/// Records a problem at the end of `problems`.
fn push_schema(problems: &mut Vec<SchemaProblem>, path: &str, message: &str)
    ensures
        schema_pairs(final(problems)@) == schema_pairs(old(problems)@).push((path@, message@)),
{
    problems.push(SchemaProblem::new(path, message));
    assert(schema_pairs(problems@) =~= schema_pairs(old(problems)@).push((path@, message@)));
}

/// Whether the text is nothing but whitespace.
pub fn is_blank(s: &str) -> (b: bool)
    ensures
        b == blank(s@),
{
    let chars = chars_of(s);
    let mut i: usize = 0;
    while i < chars.len()
        invariant
            chars@ == s@,
            i <= chars@.len(),
            forall|j: int| 0 <= j < i ==> is_unicode_whitespace(#[trigger] chars@[j]),
        decreases chars.len() - i,
    {
        if !char_is_whitespace(chars[i]) {
            return false;
        }
        i = i + 1;
    }
    true
}

/// Whether the text holds a whitespace character.
fn contains_space(s: &str) -> (b: bool)
    ensures
        b == has_space(s@),
{
    let chars = chars_of(s);
    let mut i: usize = 0;
    while i < chars.len()
        invariant
            chars@ == s@,
            i <= chars@.len(),
            forall|j: int| 0 <= j < i ==> !is_unicode_whitespace(#[trigger] chars@[j]),
        decreases chars.len() - i,
    {
        if char_is_whitespace(chars[i]) {
            return true;
        }
        i = i + 1;
    }
    false
}

/// Records the problems of a contract reference at nesting `depth`.
fn check_type_ref(path: &str, ty: &TypeRef, problems: &mut Vec<SchemaProblem>, depth: usize)
    requires
        depth <= 33,
    ensures
        schema_pairs(final(problems)@) == schema_pairs(old(problems)@) + type_ref_problems(path@, *ty, depth as int),
    decreases 33 - depth, 0usize,
{
    let ghost start = schema_pairs(problems@);
    if depth > MAX_TYPE_REF_DEPTH {
        push_schema(problems, path, "contract nesting exceeds the supported depth of 32");
        return;
    }
    if is_blank(ty.name.as_str()) {
        push_schema(problems, path, "contract name is empty");
    } else if contains_space(ty.name.as_str()) {
        let message = String::from_str("contract name '").concat(ty.name.as_str()).concat(
            "' has surrounding or embedded whitespace",
        );
        push_schema(problems, path, message.as_str());
    }
    let ghost mid = schema_pairs(problems@);
    assert(mid =~= start + contract_name_problems(path@, ty.name@));
    check_type_args(path, &ty.args, problems, depth + 1);
    assert(schema_pairs(problems@) =~= start + type_ref_problems(path@, *ty, depth as int));
}

/// Records the problems of each contract argument at nesting `depth`.
fn check_type_args(path: &str, args: &Vec<TypeRef>, problems: &mut Vec<SchemaProblem>, depth: usize)
    requires
        1 <= depth <= 33,
    ensures
        schema_pairs(final(problems)@) == schema_pairs(old(problems)@) + type_args_problems(path@, args@, depth as int, args@.len()),
    decreases 33 - depth, 1usize,
{
    let ghost start = schema_pairs(problems@);
    let mut i: usize = 0;
    while i < args.len()
        invariant
            1 <= depth <= 33,
            i <= args@.len(),
            schema_pairs(problems@) == start + type_args_problems(path@, args@, depth as int, i as nat),
        decreases args.len() - i,
    {
        check_type_ref(path, &args[i], problems, depth);
        i = i + 1;
    }
}

} // verus!

verus! {

/// The problems of each malformed capability in the first `n` names, all under `path`.
pub open spec fn capability_list_problems(path: Seq<char>, names: Seq<String>, n: nat) -> Seq<(Seq<char>, Seq<char>)>
    decreases n,
{
    if n == 0 {
        Seq::empty()
    } else {
        capability_list_problems(path, names, (n - 1) as nat) + match parse_capability_outcome(names[n - 1]@) {
            Ok(_) => Seq::empty(),
            Err(kind) => one(path, capability_kind_text(kind)),
        }
    }
}

/// The problems of the first `n` fields of the type at `type_path`.
pub open spec fn fields_problems(type_path: Seq<char>, fields: Seq<FieldSchema>, n: nat) -> Seq<(Seq<char>, Seq<char>)>
    decreases n,
{
    if n == 0 {
        Seq::empty()
    } else {
        let i = n - 1;
        let f = fields[i];
        let field_path = type_path + "."@ + f.name@;
        fields_problems(type_path, fields, (n - 1) as nat)
            + problem_if(blank(f.name@), type_path + ".fields[]"@, "field name is empty"@)
            + problem_if(exists|j: int| 0 <= j < i && #[trigger] fields[j].name@ == f.name@, field_path,
                "field is declared more than once"@)
            + type_ref_problems(field_path, f.ty, 0)
    }
}

/// The problems of the first `n` types of module `module`.
pub open spec fn types_problems(module: Seq<char>, types: Seq<TypeSchema>, n: nat) -> Seq<(Seq<char>, Seq<char>)>
    decreases n,
{
    if n == 0 {
        Seq::empty()
    } else {
        let i = n - 1;
        let t = types[i];
        let type_path = module + "."@ + t.name@;
        types_problems(module, types, (n - 1) as nat)
            + problem_if(blank(t.name@), module + ".types[]"@, "type name is empty"@)
            + problem_if(exists|j: int| 0 <= j < i && #[trigger] types[j].name@ == t.name@, type_path,
                "type is declared more than once"@)
            + fields_problems(type_path, t.fields@, t.fields@.len())
    }
}

/// The problems of the first `n` operations of the handle at `handle_path`.
pub open spec fn operations_problems(handle_path: Seq<char>, ops: Seq<String>, n: nat) -> Seq<(Seq<char>, Seq<char>)>
    decreases n,
{
    if n == 0 {
        Seq::empty()
    } else {
        let i = n - 1;
        operations_problems(handle_path, ops, (n - 1) as nat)
            + problem_if(blank(ops[i]@), handle_path + ".operations[]"@, "operation name is empty"@)
            + problem_if(exists|j: int| 0 <= j < i && #[trigger] ops[j]@ == ops[i]@, handle_path + "."@ + ops[i]@,
                "operation is declared more than once"@)
    }
}

/// The problems of the first `n` handles of module `module`.
pub open spec fn handles_problems(module: Seq<char>, handles: Seq<HandleSchema>, n: nat) -> Seq<(Seq<char>, Seq<char>)>
    decreases n,
{
    if n == 0 {
        Seq::empty()
    } else {
        let i = n - 1;
        let h = handles[i];
        let handle_path = module + "."@ + h.name@;
        handles_problems(module, handles, (n - 1) as nat)
            + problem_if(exists|j: int| 0 <= j < i && #[trigger] handles[j].name@ == h.name@, handle_path,
                "handle is declared more than once"@)
            + capability_list_problems(handle_path, h.capabilities@, h.capabilities@.len())
            + problem_if(blank(h.name@), module + ".handles[]"@, "handle name is empty"@)
            + operations_problems(handle_path, h.operations@, h.operations@.len())
    }
}

/// The problems of the first `n` values of module `module`.
pub open spec fn values_problems(module: Seq<char>, values: Seq<ValueSchema>, n: nat) -> Seq<(Seq<char>, Seq<char>)>
    decreases n,
{
    if n == 0 {
        Seq::empty()
    } else {
        let i = n - 1;
        let v = values[i];
        let value_path = module + "."@ + v.name@;
        values_problems(module, values, (n - 1) as nat)
            + problem_if(blank(v.name@), module + ".values[]"@, "value name is empty"@)
            + problem_if(exists|j: int| 0 <= j < i && #[trigger] values[j].name@ == v.name@, value_path,
                "value is declared more than once"@)
            + type_ref_problems(value_path, v.ty, 0)
    }
}

/// `path(name)`, where a parameter's problems are reported.
pub open spec fn param_path(path: Seq<char>, name: Seq<char>) -> Seq<char> {
    path + "("@ + name + ")"@
}

/// The problems of the first `n` parameters of the function at `path`.
pub open spec fn params_problems(path: Seq<char>, params: Seq<ParamSchema>, n: nat) -> Seq<(Seq<char>, Seq<char>)>
    decreases n,
{
    if n == 0 {
        Seq::empty()
    } else {
        let i = n - 1;
        let p = params[i];
        params_problems(path, params, (n - 1) as nat)
            + problem_if(blank(p.name@), path + ".params[]"@, "parameter name is empty"@)
            + problem_if(exists|j: int| 0 <= j < i && #[trigger] params[j].name@ == p.name@, param_path(path, p.name@),
                "parameter is declared more than once"@)
            + type_ref_problems(param_path(path, p.name@), p.ty, 0)
            + problem_if(!p.is_optional && exists|j: int| 0 <= j < i && (#[trigger] params[j]).is_optional,
                param_path(path, p.name@), "a required parameter cannot follow an optional one"@)
    }
}

/// The problem of a trailing-block subject, if any.
pub open spec fn subject_problems(path: Seq<char>, f: FunctionSchema) -> Seq<(Seq<char>, Seq<char>)> {
    match f.subject {
        None => Seq::empty(),
        Some(s) => if !(exists|j: int| 0 <= j < f.params@.len() && #[trigger] f.params@[j].name@ == s@) {
            one(path, "subject '"@ + s@ + "' is not a parameter of this function"@)
        } else if exists|j: int| 0 <= j < f.params@.len() && #[trigger] f.params@[j].name@ == s@ && f.params@[j].is_optional {
            one(path, "subject '"@ + s@ + "' is optional; a block form needs a required parameter"@)
        } else {
            Seq::empty()
        },
    }
}

/// The problems of the return contract, if any.
pub open spec fn returns_problems(path: Seq<char>, f: FunctionSchema) -> Seq<(Seq<char>, Seq<char>)> {
    match f.returns {
        Some(r) => type_ref_problems(path + " -> "@ + r.name@, r, 0),
        None => Seq::empty(),
    }
}

/// The problems of function `f` of module `module`.
pub open spec fn function_problems(module: Seq<char>, f: FunctionSchema) -> Seq<(Seq<char>, Seq<char>)> {
    let path = module + "."@ + f.name@;
    problem_if(blank(f.name@), module + ".functions[]"@, "function name is empty"@)
        + capability_list_problems(path, f.capabilities@, f.capabilities@.len())
        + params_problems(path, f.params@, f.params@.len())
        + returns_problems(path, f)
        + subject_problems(path, f)
        + problem_if(f.subject is Some && f.is_async, path, "an async function cannot also take a trailing block"@)
}

/// The problems of the first `n` functions of module `module`.
pub open spec fn functions_problems(module: Seq<char>, functions: Seq<FunctionSchema>, n: nat) -> Seq<(Seq<char>, Seq<char>)>
    decreases n,
{
    if n == 0 {
        Seq::empty()
    } else {
        let i = n - 1;
        let f = functions[i];
        functions_problems(module, functions, (n - 1) as nat)
            + problem_if(exists|j: int| 0 <= j < i && #[trigger] functions[j].name@ == f.name@, module + "."@ + f.name@,
                "function is declared more than once"@)
            + function_problems(module, f)
    }
}

/// The problems of module `m`.
pub open spec fn module_problems(m: ModuleSchema) -> Seq<(Seq<char>, Seq<char>)> {
    problem_if(blank(m.name@), "modules[]"@, "module name is empty"@)
        + capability_list_problems(m.name@, m.capabilities@, m.capabilities@.len())
        + types_problems(m.name@, m.types@, m.types@.len())
        + handles_problems(m.name@, m.handles@, m.handles@.len())
        + values_problems(m.name@, m.values@, m.values@.len())
        + functions_problems(m.name@, m.functions@, m.functions@.len())
}

/// The problems of the first `n` modules.
pub open spec fn modules_problems(modules: Seq<ModuleSchema>, n: nat) -> Seq<(Seq<char>, Seq<char>)>
    decreases n,
{
    if n == 0 {
        Seq::empty()
    } else {
        let i = n - 1;
        modules_problems(modules, (n - 1) as nat)
            + problem_if(exists|j: int| 0 <= j < i && #[trigger] modules[j].name@ == modules[i].name@, modules[i].name@,
                "module is declared more than once"@)
            + module_problems(modules[i])
    }
}

/// Every problem of a surface description, in the order validation reports them.
pub open spec fn schema_problems(h: HostSchema) -> Seq<(Seq<char>, Seq<char>)> {
    problem_if(blank(h.host@), "host"@, "name is empty"@)
        + problem_if(blank(h.version@), "version"@, "version is empty"@)
        + modules_problems(h.modules@, h.modules@.len())
}

} // verus!

verus! {

use crate::package::order::text_equal;

/// `a.b`.
fn dotted(a: &str, b: &str) -> (text: String)
    ensures
        text@ == a@ + "."@ + b@,
{
    String::from_str(a).concat(".").concat(b)
}

/// `a` followed by `b`.
fn joined(a: &str, b: &str) -> (text: String)
    ensures
        text@ == a@ + b@,
{
    String::from_str(a).concat(b)
}

/// Records each malformed capability of `names` under `path`.
fn check_capability_list(path: &str, names: &Vec<String>, problems: &mut Vec<SchemaProblem>)
    ensures
        schema_pairs(final(problems)@) == schema_pairs(old(problems)@) + capability_list_problems(path@, names@, names@.len()),
{
    let ghost start = schema_pairs(problems@);
    let mut i: usize = 0;
    while i < names.len()
        invariant
            i <= names@.len(),
            schema_pairs(problems@) == start + capability_list_problems(path@, names@, i as nat),
        decreases names.len() - i,
    {
        match Capability::parse(names[i].as_str()) {
            Ok(_) => {},
            Err(error) => {
                let text = error.to_string();
                proof {
                    match error {
                        crate::host::capability::CapabilityError::Empty => {},
                        crate::host::capability::CapabilityError::InvalidSegment(segment) => {},
                    }
                }
                push_schema(problems, path, text.as_str());
            },
        }
        assert(schema_pairs(problems@) =~= start + capability_list_problems(path@, names@, (i + 1) as nat));
        i = i + 1;
    }
}

/// Records the problems of the fields of the type at `type_path`.
fn check_fields(type_path: &str, fields: &Vec<FieldSchema>, problems: &mut Vec<SchemaProblem>)
    ensures
        schema_pairs(final(problems)@) == schema_pairs(old(problems)@) + fields_problems(type_path@, fields@, fields@.len()),
{
    let ghost start = schema_pairs(problems@);
    let mut i: usize = 0;
    while i < fields.len()
        invariant
            i <= fields@.len(),
            schema_pairs(problems@) == start + fields_problems(type_path@, fields@, i as nat),
        decreases fields.len() - i,
    {
        let field = &fields[i];
        let ghost s0 = schema_pairs(problems@);
        if is_blank(field.name.as_str()) {
            let label = joined(type_path, ".fields[]");
            push_schema(problems, label.as_str(), "field name is empty");
        }
        let mut repeated = false;
        let mut j: usize = 0;
        while j < i
            invariant
                i < fields@.len(),
                j <= i,
                repeated == exists|k: int| 0 <= k < j && #[trigger] fields@[k].name@ == fields@[i as int].name@,
            decreases i - j,
        {
            if text_equal(fields[j].name.as_str(), fields[i].name.as_str()) {
                repeated = true;
            }
            j = j + 1;
        }
        let field_path = dotted(type_path, field.name.as_str());
        if repeated {
            push_schema(problems, field_path.as_str(), "field is declared more than once");
        }
        let ghost s1 = schema_pairs(problems@);
        check_type_ref(field_path.as_str(), &field.ty, problems, 0);
        assert(schema_pairs(problems@) =~= start + fields_problems(type_path@, fields@, (i + 1) as nat));
        i = i + 1;
    }
}

/// Records the problems of the types of module `module`.
fn check_types(module: &str, types: &Vec<TypeSchema>, problems: &mut Vec<SchemaProblem>)
    ensures
        schema_pairs(final(problems)@) == schema_pairs(old(problems)@) + types_problems(module@, types@, types@.len()),
{
    let ghost start = schema_pairs(problems@);
    let mut i: usize = 0;
    while i < types.len()
        invariant
            i <= types@.len(),
            schema_pairs(problems@) == start + types_problems(module@, types@, i as nat),
        decreases types.len() - i,
    {
        let t = &types[i];
        if is_blank(t.name.as_str()) {
            let label = joined(module, ".types[]");
            push_schema(problems, label.as_str(), "type name is empty");
        }
        let mut repeated = false;
        let mut j: usize = 0;
        while j < i
            invariant
                i < types@.len(),
                j <= i,
                repeated == exists|k: int| 0 <= k < j && #[trigger] types@[k].name@ == types@[i as int].name@,
            decreases i - j,
        {
            if text_equal(types[j].name.as_str(), types[i].name.as_str()) {
                repeated = true;
            }
            j = j + 1;
        }
        let type_path = dotted(module, t.name.as_str());
        if repeated {
            push_schema(problems, type_path.as_str(), "type is declared more than once");
        }
        check_fields(type_path.as_str(), &t.fields, problems);
        assert(schema_pairs(problems@) =~= start + types_problems(module@, types@, (i + 1) as nat));
        i = i + 1;
    }
}

/// Records the problems of the operations of the handle at `handle_path`.
fn check_operations(handle_path: &str, ops: &Vec<String>, problems: &mut Vec<SchemaProblem>)
    ensures
        schema_pairs(final(problems)@) == schema_pairs(old(problems)@) + operations_problems(handle_path@, ops@, ops@.len()),
{
    let ghost start = schema_pairs(problems@);
    let mut i: usize = 0;
    while i < ops.len()
        invariant
            i <= ops@.len(),
            schema_pairs(problems@) == start + operations_problems(handle_path@, ops@, i as nat),
        decreases ops.len() - i,
    {
        if is_blank(ops[i].as_str()) {
            let label = joined(handle_path, ".operations[]");
            push_schema(problems, label.as_str(), "operation name is empty");
        }
        let mut repeated = false;
        let mut j: usize = 0;
        while j < i
            invariant
                i < ops@.len(),
                j <= i,
                repeated == exists|k: int| 0 <= k < j && #[trigger] ops@[k]@ == ops@[i as int]@,
            decreases i - j,
        {
            if text_equal(ops[j].as_str(), ops[i].as_str()) {
                repeated = true;
            }
            j = j + 1;
        }
        if repeated {
            let label = dotted(handle_path, ops[i].as_str());
            push_schema(problems, label.as_str(), "operation is declared more than once");
        }
        assert(schema_pairs(problems@) =~= start + operations_problems(handle_path@, ops@, (i + 1) as nat));
        i = i + 1;
    }
}

/// Records the problems of the handles of module `module`.
fn check_handles(module: &str, handles: &Vec<HandleSchema>, problems: &mut Vec<SchemaProblem>)
    ensures
        schema_pairs(final(problems)@) == schema_pairs(old(problems)@) + handles_problems(module@, handles@, handles@.len()),
{
    let ghost start = schema_pairs(problems@);
    let mut i: usize = 0;
    while i < handles.len()
        invariant
            i <= handles@.len(),
            schema_pairs(problems@) == start + handles_problems(module@, handles@, i as nat),
        decreases handles.len() - i,
    {
        let h = &handles[i];
        let mut repeated = false;
        let mut j: usize = 0;
        while j < i
            invariant
                i < handles@.len(),
                j <= i,
                repeated == exists|k: int| 0 <= k < j && #[trigger] handles@[k].name@ == handles@[i as int].name@,
            decreases i - j,
        {
            if text_equal(handles[j].name.as_str(), handles[i].name.as_str()) {
                repeated = true;
            }
            j = j + 1;
        }
        let handle_path = dotted(module, h.name.as_str());
        if repeated {
            push_schema(problems, handle_path.as_str(), "handle is declared more than once");
        }
        check_capability_list(handle_path.as_str(), &h.capabilities, problems);
        if is_blank(h.name.as_str()) {
            let label = joined(module, ".handles[]");
            push_schema(problems, label.as_str(), "handle name is empty");
        }
        check_operations(handle_path.as_str(), &h.operations, problems);
        assert(schema_pairs(problems@) =~= start + handles_problems(module@, handles@, (i + 1) as nat));
        i = i + 1;
    }
}

/// Records the problems of the values of module `module`.
fn check_values(module: &str, values: &Vec<ValueSchema>, problems: &mut Vec<SchemaProblem>)
    ensures
        schema_pairs(final(problems)@) == schema_pairs(old(problems)@) + values_problems(module@, values@, values@.len()),
{
    let ghost start = schema_pairs(problems@);
    let mut i: usize = 0;
    while i < values.len()
        invariant
            i <= values@.len(),
            schema_pairs(problems@) == start + values_problems(module@, values@, i as nat),
        decreases values.len() - i,
    {
        let v = &values[i];
        if is_blank(v.name.as_str()) {
            let label = joined(module, ".values[]");
            push_schema(problems, label.as_str(), "value name is empty");
        }
        let mut repeated = false;
        let mut j: usize = 0;
        while j < i
            invariant
                i < values@.len(),
                j <= i,
                repeated == exists|k: int| 0 <= k < j && #[trigger] values@[k].name@ == values@[i as int].name@,
            decreases i - j,
        {
            if text_equal(values[j].name.as_str(), values[i].name.as_str()) {
                repeated = true;
            }
            j = j + 1;
        }
        let value_path = dotted(module, v.name.as_str());
        if repeated {
            push_schema(problems, value_path.as_str(), "value is declared more than once");
        }
        check_type_ref(value_path.as_str(), &v.ty, problems, 0);
        assert(schema_pairs(problems@) =~= start + values_problems(module@, values@, (i + 1) as nat));
        i = i + 1;
    }
}

} // verus!

verus! {

use crate::host::fault::HostFault;
use crate::package::lock::lemma_chain_concat;

/// Records the problems of the parameters of the function at `path`.
fn check_params(path: &str, params: &Vec<ParamSchema>, problems: &mut Vec<SchemaProblem>)
    ensures
        schema_pairs(final(problems)@) == schema_pairs(old(problems)@) + params_problems(path@, params@, params@.len()),
{
    let ghost start = schema_pairs(problems@);
    let mut seen_optional = false;
    let mut i: usize = 0;
    while i < params.len()
        invariant
            i <= params@.len(),
            seen_optional == exists|k: int| 0 <= k < i && (#[trigger] params@[k]).is_optional,
            schema_pairs(problems@) == start + params_problems(path@, params@, i as nat),
        decreases params.len() - i,
    {
        let p = &params[i];
        if is_blank(p.name.as_str()) {
            let label = joined(path, ".params[]");
            push_schema(problems, label.as_str(), "parameter name is empty");
        }
        let mut repeated = false;
        let mut j: usize = 0;
        while j < i
            invariant
                i < params@.len(),
                j <= i,
                repeated == exists|k: int| 0 <= k < j && #[trigger] params@[k].name@ == params@[i as int].name@,
            decreases i - j,
        {
            if text_equal(params[j].name.as_str(), params[i].name.as_str()) {
                repeated = true;
            }
            j = j + 1;
        }
        let label = String::from_str(path).concat("(").concat(p.name.as_str()).concat(")");
        if repeated {
            push_schema(problems, label.as_str(), "parameter is declared more than once");
        }
        check_type_ref(label.as_str(), &p.ty, problems, 0);
        if p.is_optional {
            seen_optional = true;
        } else if seen_optional {
            push_schema(problems, label.as_str(), "a required parameter cannot follow an optional one");
        }
        assert(schema_pairs(problems@) =~= start + params_problems(path@, params@, (i + 1) as nat));
        i = i + 1;
    }
}

/// Records a trailing-block subject that names no parameter or an optional one.
fn check_subject(path: &str, f: &FunctionSchema, problems: &mut Vec<SchemaProblem>)
    ensures
        schema_pairs(final(problems)@) == schema_pairs(old(problems)@) + subject_problems(path@, *f),
{
    let ghost start = schema_pairs(problems@);
    match &f.subject {
        None => {
            assert(schema_pairs(problems@) =~= start + subject_problems(path@, *f));
        },
        Some(subject) => {
            let mut named = false;
            let mut optional = false;
            let mut j: usize = 0;
            while j < f.params.len()
                invariant
                    j <= f.params@.len(),
                    named == exists|k: int| 0 <= k < j && #[trigger] f.params@[k].name@ == subject@,
                    optional == exists|k: int| 0 <= k < j && #[trigger] f.params@[k].name@ == subject@ && f.params@[k].is_optional,
                decreases f.params.len() - j,
            {
                if text_equal(f.params[j].name.as_str(), subject.as_str()) {
                    named = true;
                    if f.params[j].is_optional {
                        optional = true;
                    }
                }
                j = j + 1;
            }
            if !named {
                let message = String::from_str("subject '").concat(subject.as_str()).concat(
                    "' is not a parameter of this function",
                );
                push_schema(problems, path, message.as_str());
            } else if optional {
                let message = String::from_str("subject '").concat(subject.as_str()).concat(
                    "' is optional; a block form needs a required parameter",
                );
                push_schema(problems, path, message.as_str());
            }
            assert(schema_pairs(problems@) =~= start + subject_problems(path@, *f));
        },
    }
}

/// Records the problems of function `f` of module `module`.
fn check_function(module: &str, f: &FunctionSchema, problems: &mut Vec<SchemaProblem>)
    ensures
        schema_pairs(final(problems)@) == schema_pairs(old(problems)@) + function_problems(module@, *f),
{
    let ghost s0 = schema_pairs(problems@);
    let path = dotted(module, f.name.as_str());
    if is_blank(f.name.as_str()) {
        let label = joined(module, ".functions[]");
        push_schema(problems, label.as_str(), "function name is empty");
    }
    let ghost s1 = schema_pairs(problems@);
    check_capability_list(path.as_str(), &f.capabilities, problems);
    let ghost s2 = schema_pairs(problems@);
    check_params(path.as_str(), &f.params, problems);
    let ghost s3 = schema_pairs(problems@);
    match &f.returns {
        Some(result_type) => {
            let label = String::from_str(path.as_str()).concat(" -> ").concat(result_type.name.as_str());
            check_type_ref(label.as_str(), result_type, problems, 0);
        },
        None => {},
    }
    let ghost s4 = schema_pairs(problems@);
    check_subject(path.as_str(), f, problems);
    let ghost s5 = schema_pairs(problems@);
    if f.subject.is_some() && f.is_async {
        push_schema(problems, path.as_str(), "an async function cannot also take a trailing block");
    }
    proof {
        let a = problem_if(blank(f.name@), module@ + ".functions[]"@, "function name is empty"@);
        let r = returns_problems(path@, *f);
        let z = problem_if(f.subject is Some && f.is_async, path@, "an async function cannot also take a trailing block"@);
        assert(s1 =~= s0 + a);
        assert(s4 =~= s3 + r);
        assert(schema_pairs(problems@) =~= s5 + z);
        lemma_chain_concat(
            s0,
            s1,
            s2,
            s3,
            s4,
            s5,
            schema_pairs(problems@),
            schema_pairs(problems@),
            a,
            capability_list_problems(path@, f.capabilities@, f.capabilities@.len()),
            params_problems(path@, f.params@, f.params@.len()),
            r,
            subject_problems(path@, *f),
            z,
            Seq::empty(),
        );
    }
}

/// Records the problems of the functions of module `module`.
fn check_functions(module: &str, functions: &Vec<FunctionSchema>, problems: &mut Vec<SchemaProblem>)
    ensures
        schema_pairs(final(problems)@) == schema_pairs(old(problems)@) + functions_problems(module@, functions@, functions@.len()),
{
    let ghost start = schema_pairs(problems@);
    let mut i: usize = 0;
    while i < functions.len()
        invariant
            i <= functions@.len(),
            schema_pairs(problems@) == start + functions_problems(module@, functions@, i as nat),
        decreases functions.len() - i,
    {
        let mut repeated = false;
        let mut j: usize = 0;
        while j < i
            invariant
                i < functions@.len(),
                j <= i,
                repeated == exists|k: int| 0 <= k < j && #[trigger] functions@[k].name@ == functions@[i as int].name@,
            decreases i - j,
        {
            if text_equal(functions[j].name.as_str(), functions[i].name.as_str()) {
                repeated = true;
            }
            j = j + 1;
        }
        if repeated {
            let label = dotted(module, functions[i].name.as_str());
            push_schema(problems, label.as_str(), "function is declared more than once");
        }
        check_function(module, &functions[i], problems);
        assert(schema_pairs(problems@) =~= start + functions_problems(module@, functions@, (i + 1) as nat));
        i = i + 1;
    }
}

/// Records the problems of module `m`.
fn check_module(m: &ModuleSchema, problems: &mut Vec<SchemaProblem>)
    ensures
        schema_pairs(final(problems)@) == schema_pairs(old(problems)@) + module_problems(*m),
{
    let ghost s0 = schema_pairs(problems@);
    if is_blank(m.name.as_str()) {
        push_schema(problems, "modules[]", "module name is empty");
    }
    let ghost s1 = schema_pairs(problems@);
    check_capability_list(m.name.as_str(), &m.capabilities, problems);
    let ghost s2 = schema_pairs(problems@);
    check_types(m.name.as_str(), &m.types, problems);
    let ghost s3 = schema_pairs(problems@);
    check_handles(m.name.as_str(), &m.handles, problems);
    let ghost s4 = schema_pairs(problems@);
    check_values(m.name.as_str(), &m.values, problems);
    let ghost s5 = schema_pairs(problems@);
    check_functions(m.name.as_str(), &m.functions, problems);
    proof {
        reveal_strlit("modules[]");
    }
    assert(s1 =~= s0 + problem_if(blank(m.name@), "modules[]"@, "module name is empty"@));
    assert(schema_pairs(problems@) =~= s0 + module_problems(*m));
}

impl HostSchema {
    /// Checks the description is internally consistent, reporting every problem found.
    pub fn validate(&self) -> (result: Result<(), HostFault>)
        ensures
            match result {
                Ok(_) => schema_problems(*self).len() == 0,
                Err(HostFault::Schema { problems }) => schema_problems(*self).len() > 0
                    && schema_pairs(problems@) == schema_problems(*self),
                Err(_) => false,
            },
    {
        let mut problems: Vec<SchemaProblem> = Vec::new();
        assert(schema_pairs(problems@) =~= Seq::<(Seq<char>, Seq<char>)>::empty());
        if is_blank(self.host.as_str()) {
            push_schema(&mut problems, "host", "name is empty");
        }
        if is_blank(self.version.as_str()) {
            push_schema(&mut problems, "version", "version is empty");
        }
        let ghost head = schema_pairs(problems@);
        assert(head =~= problem_if(blank(self.host@), "host"@, "name is empty"@)
            + problem_if(blank(self.version@), "version"@, "version is empty"@));
        let mut i: usize = 0;
        while i < self.modules.len()
            invariant
                i <= self.modules@.len(),
                schema_pairs(problems@) == head + modules_problems(self.modules@, i as nat),
            decreases self.modules.len() - i,
        {
            let mut repeated = false;
            let mut j: usize = 0;
            while j < i
                invariant
                    i < self.modules@.len(),
                    j <= i,
                    repeated == exists|k: int| 0 <= k < j && #[trigger] self.modules@[k].name@ == self.modules@[i as int].name@,
                decreases i - j,
            {
                if text_equal(self.modules[j].name.as_str(), self.modules[i].name.as_str()) {
                    repeated = true;
                }
                j = j + 1;
            }
            if repeated {
                push_schema(&mut problems, self.modules[i].name.as_str(), "module is declared more than once");
            }
            check_module(&self.modules[i], &mut problems);
            assert(schema_pairs(problems@) =~= head + modules_problems(self.modules@, (i + 1) as nat));
            i = i + 1;
        }
        assert(schema_pairs(problems@) =~= schema_problems(*self));
        if problems.len() == 0 {
            Ok(())
        } else {
            Err(HostFault::Schema { problems })
        }
    }

    /// Looks a function up by module and name: the first function so named in the first
    /// module so named.
    pub fn function(&self, module: &str, function: &str) -> (found: Option<&FunctionSchema>)
        ensures
            match found {
                Some(f) => exists|i: int, k: int| {
                    &&& 0 <= i < self.modules@.len()
                    &&& self.modules@[i].name@ == module@
                    &&& (forall|j: int| 0 <= j < i ==> #[trigger] self.modules@[j].name@ != module@)
                    &&& 0 <= k < self.modules@[i].functions@.len()
                    &&& self.modules@[i].functions@[k] == *f
                    &&& f.name@ == function@
                    &&& forall|j: int| 0 <= j < k ==> #[trigger] self.modules@[i].functions@[j].name@ != function@
                },
                None => forall|i: int| 0 <= i < self.modules@.len() && self.modules@[i].name@ == module@
                    && (forall|j: int| 0 <= j < i ==> #[trigger] self.modules@[j].name@ != module@)
                    ==> forall|k: int| 0 <= k < self.modules@[i].functions@.len()
                    ==> #[trigger] self.modules@[i].functions@[k].name@ != function@,
            },
    {
        let mut i: usize = 0;
        while i < self.modules.len()
            invariant
                i <= self.modules@.len(),
                forall|j: int| 0 <= j < i ==> #[trigger] self.modules@[j].name@ != module@,
            decreases self.modules.len() - i,
        {
            if text_equal(self.modules[i].name.as_str(), module) {
                let functions = &self.modules[i].functions;
                assert(self.modules@[i as int].name@ == module@);
                let mut k: usize = 0;
                while k < functions.len()
                    invariant
                        i < self.modules@.len(),
                        self.modules@[i as int].name@ == module@,
                        forall|j: int| 0 <= j < i ==> #[trigger] self.modules@[j].name@ != module@,
                        functions@ == self.modules@[i as int].functions@,
                        k <= functions@.len(),
                        forall|j: int| 0 <= j < k ==> #[trigger] functions@[j].name@ != function@,
                    decreases functions.len() - k,
                {
                    if text_equal(functions[k].name.as_str(), function) {
                        proof {
                            let ii = i as int;
                            let kk = k as int;
                            assert(self.modules@[ii].functions@[kk] == functions@[kk]);
                            assert({
                                &&& 0 <= ii < self.modules@.len()
                                &&& self.modules@[ii].name@ == module@
                                &&& (forall|j: int| 0 <= j < ii ==> #[trigger] self.modules@[j].name@ != module@)
                                &&& 0 <= kk < self.modules@[ii].functions@.len()
                                &&& self.modules@[ii].functions@[kk] == functions@[kk]
                                &&& functions@[kk].name@ == function@
                                &&& forall|j: int| 0 <= j < kk ==> #[trigger] self.modules@[ii].functions@[j].name@ != function@
                            });
                        }
                        return Some(&functions[k]);
                    }
                    k = k + 1;
                }
                return None;
            }
            i = i + 1;
        }
        None
    }
}

} // verus!

verus! {

use crate::host::capability::{allows_seq, canonical, covers, CapabilitySet};
use crate::text::string_views;

/// The capability names declared by the first `n` handles, in order.
pub open spec fn handle_capabilities(handles: Seq<HandleSchema>, n: nat) -> Seq<Seq<char>>
    decreases n,
{
    if n == 0 {
        Seq::empty()
    } else {
        handle_capabilities(handles, (n - 1) as nat) + string_views(handles[n - 1].capabilities@)
    }
}

/// The capability names declared by the first `n` functions, in order.
pub open spec fn function_capabilities(functions: Seq<FunctionSchema>, n: nat) -> Seq<Seq<char>>
    decreases n,
{
    if n == 0 {
        Seq::empty()
    } else {
        function_capabilities(functions, (n - 1) as nat) + string_views(functions[n - 1].capabilities@)
    }
}

/// The capability names a module declares: its own, its handles', its functions'.
pub open spec fn module_capabilities(m: ModuleSchema) -> Seq<Seq<char>> {
    string_views(m.capabilities@) + handle_capabilities(m.handles@, m.handles@.len())
        + function_capabilities(m.functions@, m.functions@.len())
}

/// The capability names the first `n` modules declare, in order.
pub open spec fn declared_names(modules: Seq<ModuleSchema>, n: nat) -> Seq<Seq<char>>
    decreases n,
{
    if n == 0 {
        Seq::empty()
    } else {
        declared_names(modules, (n - 1) as nat) + module_capabilities(modules[n - 1])
    }
}

/// Every capability name the surface declares, in order.
pub open spec fn surface_names(h: HostSchema) -> Seq<Seq<char>> {
    declared_names(h.modules@, h.modules@.len())
}

/// A name that parses as a capability.
pub open spec fn well_formed_name(name: Seq<char>) -> bool {
    parse_capability_outcome(name) is Ok
}

/// `set` is the minimal set covering exactly what the well-formed names of `names` cover.
pub open spec fn grants_of(set: Seq<Seq<char>>, names: Seq<Seq<char>>) -> bool {
    &&& canonical(set)
    &&& forall|x: Seq<char>|
        allows_seq(set, x) <==> exists|k: int| 0 <= k < names.len() && well_formed_name(names[k]) && covers(#[trigger] names[k], x)
    &&& forall|e: Seq<char>| #![trigger set.contains(e)] set.contains(e) ==> names.contains(e) && well_formed_name(e)
}

/// Appends the texts of `names`.
fn append_names(out: &mut Vec<String>, names: &Vec<String>)
    ensures
        string_views(final(out)@) == string_views(old(out)@) + string_views(names@),
{
    let ghost start = string_views(out@);
    let mut i: usize = 0;
    while i < names.len()
        invariant
            i <= names@.len(),
            string_views(out@) == start + string_views(names@.take(i as int)),
        decreases names.len() - i,
    {
        let ghost before = string_views(out@);
        let item = names[i].clone();
        assert(item@ == names@[i as int]@);
        out.push(item);
        assert(string_views(out@) =~= before.push(names@[i as int]@));
        assert(string_views(names@.take(i + 1)) =~= string_views(names@.take(i as int)).push(names@[i as int]@));
        assert(string_views(out@) =~= start + string_views(names@.take(i + 1)));
        i = i + 1;
    }
    assert(names@.take(names@.len() as int) =~= names@);
}

/// Appends the capability names a module declares.
fn append_module_names(out: &mut Vec<String>, m: &ModuleSchema)
    ensures
        string_views(final(out)@) == string_views(old(out)@) + module_capabilities(*m),
{
    let ghost start = string_views(out@);
    append_names(out, &m.capabilities);
    let ghost mid = string_views(out@);
    let mut i: usize = 0;
    while i < m.handles.len()
        invariant
            i <= m.handles@.len(),
            string_views(out@) == mid + handle_capabilities(m.handles@, i as nat),
        decreases m.handles.len() - i,
    {
        append_names(out, &m.handles[i].capabilities);
        assert(string_views(out@) =~= mid + handle_capabilities(m.handles@, (i + 1) as nat));
        i = i + 1;
    }
    let ghost after = string_views(out@);
    let mut i: usize = 0;
    while i < m.functions.len()
        invariant
            i <= m.functions@.len(),
            string_views(out@) == after + function_capabilities(m.functions@, i as nat),
        decreases m.functions.len() - i,
    {
        append_names(out, &m.functions[i].capabilities);
        assert(string_views(out@) =~= after + function_capabilities(m.functions@, (i + 1) as nat));
        i = i + 1;
    }
    assert(string_views(out@) =~= start + module_capabilities(*m));
}

/// The set granting every well-formed name of `names`, ignoring the malformed ones.
fn grant_well_formed(names: &Vec<String>) -> (set: CapabilitySet)
    ensures
        grants_of(set@, string_views(names@)),
{
    let ghost all = string_views(names@);
    let mut set = CapabilitySet::none();
    let mut i: usize = 0;
    while i < names.len()
        invariant
            all == string_views(names@),
            i <= names@.len(),
            canonical(set@),
            forall|x: Seq<char>|
                allows_seq(set@, x) <==> exists|k: int| 0 <= k < i && well_formed_name(all[k]) && covers(#[trigger] all[k], x),
            forall|e: Seq<char>| #![trigger set@.contains(e)] set@.contains(e) ==> exists|k: int| 0 <= k < i && all[k] == e && well_formed_name(e),
        decreases names.len() - i,
    {
        assert(all[i as int] == names@[i as int]@);
        match Capability::parse(names[i].as_str()) {
            Ok(capability) => {
                let ghost before = set@;
                let ghost cap = capability@;
                assert(well_formed_name(all[i as int]));
                let changed = set.grant(capability);
                proof {
                    assert forall|x: Seq<char>| allows_seq(set@, x) <==> exists|k: int| 0 <= k < i + 1 && well_formed_name(all[k]) && covers(#[trigger] all[k], x) by {
                        assert(allows_seq(set@, x) == (allows_seq(before, x) || covers(cap, x)));
                        if allows_seq(before, x) {
                            let k = choose|k: int| 0 <= k < i && well_formed_name(all[k]) && covers(#[trigger] all[k], x);
                            assert(0 <= k < i + 1 && well_formed_name(all[k]) && covers(all[k], x));
                        }
                        if exists|k: int| 0 <= k < i + 1 && well_formed_name(all[k]) && covers(#[trigger] all[k], x) {
                            let k = choose|k: int| 0 <= k < i + 1 && well_formed_name(all[k]) && covers(#[trigger] all[k], x);
                            if k < i {
                                assert(allows_seq(before, x));
                            }
                        }
                    }
                    assert forall|e: Seq<char>| #![trigger set@.contains(e)] set@.contains(e) implies exists|k: int| 0 <= k < i + 1 && all[k] == e && well_formed_name(e) by {
                        if changed && e == cap {
                            assert(all[i as int] == e);
                        } else {
                            assert(before.contains(e));
                            let k = choose|k: int| 0 <= k < i && all[k] == e && well_formed_name(e);
                            assert(0 <= k < i + 1 && all[k] == e);
                        }
                    }
                }
            },
            Err(_) => {
                assert(!well_formed_name(all[i as int]));
                assert forall|x: Seq<char>| allows_seq(set@, x) <==> exists|k: int| 0 <= k < i + 1 && well_formed_name(all[k]) && covers(#[trigger] all[k], x) by {
                    if exists|k: int| 0 <= k < i + 1 && well_formed_name(all[k]) && covers(#[trigger] all[k], x) {
                        let k = choose|k: int| 0 <= k < i + 1 && well_formed_name(all[k]) && covers(#[trigger] all[k], x);
                        assert(k < i);
                    }
                }
            },
        }
        i = i + 1;
    }
    proof {
        assert forall|e: Seq<char>| #![trigger set@.contains(e)] set@.contains(e) implies all.contains(e) && well_formed_name(e) by {
            let k = choose|k: int| 0 <= k < i && all[k] == e && well_formed_name(e);
        }
    }
    set
}

impl HostSchema {
    /// Every capability name the surface declares, in declaration order.
    fn declared_name_list(&self) -> (names: Vec<String>)
        ensures
            string_views(names@) == surface_names(*self),
    {
        let mut names: Vec<String> = Vec::new();
        assert(string_views(names@) =~= Seq::<Seq<char>>::empty());
        let mut i: usize = 0;
        while i < self.modules.len()
            invariant
                i <= self.modules@.len(),
                string_views(names@) == declared_names(self.modules@, i as nat),
            decreases self.modules.len() - i,
        {
            append_module_names(&mut names, &self.modules[i]);
            i = i + 1;
        }
        names
    }

    /// Every well-formed capability the surface declares, module-wide, per handle or per
    /// function, as the minimal covering set; malformed names grant nothing.
    pub fn declared_capabilities(&self) -> (set: CapabilitySet)
        ensures
            grants_of(set@, surface_names(*self)),
    {
        let names = self.declared_name_list();
        grant_well_formed(&names)
    }

    /// The declared capabilities, in set order, that `granted` does not allow.
    pub fn missing_capabilities(&self, granted: &CapabilitySet) -> (missing: Vec<Capability>)
        ensures
            exists|declared: Seq<Seq<char>>| #[trigger] grants_of(declared, surface_names(*self))
                && missing@.map_values(|c: Capability| c@) == declared.filter(|c: Seq<char>| !allows_seq(granted@, c)),
    {
        let declared = self.declared_capabilities();
        let grants = declared.as_slice();
        let ghost d = declared@;
        let mut missing: Vec<Capability> = Vec::new();
        let mut i: usize = 0;
        while i < grants.len()
            invariant
                grants@.map_values(|c: Capability| c@) == d,
                i <= grants@.len(),
                missing@.map_values(|c: Capability| c@) == d.take(i as int).filter(|c: Seq<char>| !allows_seq(granted@, c)),
            decreases grants.len() - i,
        {
            let ghost before = missing@.map_values(|c: Capability| c@);
            assert(d[i as int] == grants@[i as int]@);
            assert(d.take(i + 1).drop_last() =~= d.take(i as int));
            assert(d.take(i + 1).last() == d[i as int]);
            proof {
                reveal(Seq::filter);
            }
            if !granted.allows(&grants[i]) {
                missing.push(grants[i].duplicate());
                assert(missing@.map_values(|c: Capability| c@) =~= before.push(d[i as int]));
            } else {
                assert(missing@.map_values(|c: Capability| c@) =~= before);
            }
            i = i + 1;
        }
        assert(d.take(d.len() as int) =~= d);
        missing
    }

    /// Fails unless the profile grants every declared capability, naming the first
    /// missing one and the host.
    pub fn require_capabilities(&self, granted: &CapabilitySet) -> (result: Result<(), HostFault>)
        ensures
            exists|declared: Seq<Seq<char>>| #[trigger] grants_of(declared, surface_names(*self)) && ({
                let missing = declared.filter(|c: Seq<char>| !allows_seq(granted@, c));
                match result {
                    Ok(_) => missing.len() == 0,
                    Err(HostFault::CapabilityDenied { capability, operation }) => missing.len() > 0
                        && capability@ == missing[0] && operation@ == "load host surface '"@ + self.host@ + "'"@,
                    Err(_) => false,
                }
            }),
    {
        let missing = self.missing_capabilities(granted);
        if missing.len() == 0 {
            return Ok(());
        }
        let first = missing[0].duplicate();
        let operation = String::from_str("load host surface '").concat(self.host.as_str()).concat("'");
        Err(HostFault::CapabilityDenied { capability: first, operation })
    }
}

} // verus!
