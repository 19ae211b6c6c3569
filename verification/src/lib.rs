use vstd::prelude::*;

pub mod assignment;
pub mod closing;
pub mod collections;
pub mod config;
pub mod descriptions;
pub mod issue;
pub mod locate;
pub mod markdown;
pub mod nesting;
pub mod options;
pub mod parse;
pub mod patch;
pub mod plan;
pub mod plan_shape;
pub mod reader;
pub mod rename;
pub mod source;
pub mod spans;
pub mod syntax;
pub mod text;

verus! {
} // verus!
