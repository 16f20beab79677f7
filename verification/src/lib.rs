//! The verified core of a scientific calculator served over MCP.
//!
//! - `code_mode`: the recursive-descent parser of calculator expressions,
//!   proved against the grammar in `grammar`, with `literal` deciding which
//!   number texts are floating-point literals and `bytes` the character
//!   classes and string helpers.
//! - `plan`: how an expression is evaluated, as the ordered list of primitive
//!   calls it makes; an unknown name or a wrong arity stops it before any.
//! - `run`: running a plan step by step, recording each dispatch and
//!   stopping at the first that fails; the arithmetic is the caller's.
//! - `primitives` and `ieee`: which inputs each arithmetic primitive refuses,
//!   and with which error, decided on the IEEE 754 bit patterns of its
//!   operands.
//! - `constants`: the named mathematical constants and how a name resolves.
pub mod bytes;
pub mod code_mode;
pub mod grammar;
pub mod grammar_laws;
pub mod literal;
pub mod ieee;
pub mod primitives;
pub mod constants;
pub mod plan;
pub mod run;
