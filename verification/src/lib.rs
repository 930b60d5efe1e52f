//! A tree-walking interpreter for a small dynamically typed scripting language
//! with first-class functions, closures and classes.
//!
//! Source text is scanned into tokens ([`scanner`]), parsed into a syntax
//! tree ([`parser`]), resolved to lexical depths ([`resolver`]) and then
//! evaluated by a step machine over chains of environments ([`machine`],
//! [`interpreter`]). [`pipeline::compile`] parses and resolves in one go.
//!
//! The machine does no floating-point arithmetic and no input or output of
//! its own. A number is held as the bit pattern of a double; arithmetic on
//! numbers, the formatting of numbers and console traffic are requested from
//! the host through [`machine::Action`] values, which the host answers with
//! [`machine::Event`] values. The host also gives every number token the
//! number that its text denotes, between scanning and parsing.
//!
//! What is proved of the parts together:
//! - [`numbering`]: no two expressions of a parsed program share an identity;
//! - [`resolved`]: every depth that the resolver records for such a program
//!   is smaller than the number of scopes around its reference;
//! - [`scoping`]: the machine keeps its chains of environments as long as
//!   the running code is deep in scopes, so that a read at a recorded depth
//!   never runs off the chain;
//! - [`shape`], [`defined`], [`binding`]: a program that is parsed of
//!   scanned tokens is plain; the depth that is recorded for a read of a
//!   plain program leads to a scope that has defined the name by the time
//!   the read is run ([`naming`] says what that means); and the machine
//!   keeps every environment of the current chain binding the names of its
//!   scope, so that such a read finds its binding and never fails;
//! - [`laws`]: closures, `return`, short-circuit operators and initializers
//!   behave as the language says.

pub mod text;
pub mod table;
pub mod environment;
pub mod types;
pub mod scanner;
pub mod expressions;
pub mod statements;
pub mod operators;
pub mod machine;
pub mod interpreter;
pub mod resolver;
pub mod parser;
pub mod pipeline;
pub mod laws;
pub mod numbering;
pub mod resolved;
pub mod scoping;
pub mod naming;
pub mod binding;
pub mod defined;
pub mod shape;
