//! Template shape inference: classifies the variables a template touches and
//! reconstructs the nested object shape of the data it expects.
//!
//! The library works over its own syntax-tree taxonomy (see [`ast`]); a
//! front end that parses template text into that taxonomy is expected to
//! live outside the verified core.

pub mod access;
pub mod analysis;
pub mod ast;
pub mod laws;
pub mod names;
pub mod shape;
pub mod table;
pub mod tracker;
pub mod walk;
