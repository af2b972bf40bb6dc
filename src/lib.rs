//! Serialization of query expressions and logical plans to a compact byte
//! form, and their reconstruction.
//!
//! - `wire`: LEB128 integers and length-prefixed UTF-8 strings.
//! - `expr`, `registry`: expressions, function definitions, and the registry
//!   that binds a function name to a definition when an expression is read.
//! - `expr_wire`, `expr_codec`: the wire form of expressions and the code
//!   that writes and reads it, with a bound on how deeply a read nests.
//! - `bytes`: the public expression entry points, and the round-trip laws.
//! - `plan`, `plan_codec`: logical plans, the extension codecs that carry
//!   engine-specific nodes and table sources, and the plan entry points.
pub mod error;
pub mod wire;
pub mod expr;
pub mod registry;
pub mod expr_wire;
pub mod expr_codec;
pub mod bytes;
pub mod plan;
pub mod plan_codec;
