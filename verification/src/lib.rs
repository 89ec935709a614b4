//! Type-system core of a small statically typed expression language:
//! declarations are collected into an environment, calls and operator uses are
//! resolved against overload sets with user-declared implicit conversions, and
//! generic functions are specialised per call-site argument types.
//!
//! - `types`: the representation of types.
//! - `ast`: expressions and declarations, as the parser hands them over.
//! - `env`: the environment and its construction from declarations.
//! - `chains`: the search for the shortest chain of conversions.
//! - `overload`: overload resolution and the conversion of arguments.
//! - `typing`: the typing rules, as mathematical functions.
//! - `mir`: the typed representation that type checking produces.
//! - `scope`, `common`, `lower`: what the type checker is built from.
//! - `check`: the type checker for expressions, with the specialization
//!   cache.
//! - `declare`: type checking of declarations and of whole units.
//!
//! Beside the core stand executable models of the language's sample programs
//! (`numeric`, `arrays`, `surreal`), each with a contract that states what the
//! program computes.

pub mod types;
pub mod chains;
pub mod ast;
pub mod env;
pub mod overload;
pub mod typing;
pub mod mir;
pub mod scope;
pub mod common;
pub mod lower;
pub mod check;
pub mod declare;
pub mod numeric;
pub mod arrays;
pub mod surreal;
