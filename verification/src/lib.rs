//! Verified core of the Aipo toolchain's host boundary and package protocol.
use vstd::prelude::*;

pub mod host;
pub mod ir;
pub mod js;
pub mod lexer;
pub mod number;
pub mod package;
pub mod poppy;
pub mod runtime;
pub mod text;

verus! {
}
