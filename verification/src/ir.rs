//! Plain data of the target-neutral Core IR shared by the backends.
use vstd::prelude::*;

verus! {

/// A declared struct type carried by the module so the runtime can materialize
/// instances with their canonical field names and mutability markers.
#[derive(Debug, Clone, PartialEq, Eq)]
pub struct CoreStruct {
    /// Struct type name.
    pub name: String,
    /// Declared fields in canonical order: `(field name, is_fixed)`.
    pub fields: Vec<(String, bool)>,
}

/// Which binding an `each` iteration step produces.
#[derive(Debug, Clone, Copy, PartialEq, Eq)]
pub enum IterMode {
    /// The natural one-name binding: the key of a `Dict`, the element otherwise.
    Primary,
    /// The two-name first binding: the key of a `Dict`, the positional Int otherwise.
    Key,
    /// The two-name second binding: the value of a `Dict`, the element otherwise.
    Value,
}

} // verus!
