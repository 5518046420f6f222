//! Byte-exact, length-preserving patching of byte buffers.
//!
//! A replacement template is parsed into a tree of [`ast::Part`]s: literal
//! bytes, positional and named back-references into a pattern match, and
//! alternation groups of which exactly one branch must evaluate. Evaluating a
//! template against a [`capture::Capture`] source yields the replacement
//! bytes; the engine substitutes them for the unique match of a pattern in a
//! buffer, refusing any edit that would change the buffer's length, and a
//! patch document supplies an ordered list of such rules.

pub mod ast;
pub mod capture;
pub mod eval;
pub mod parse;
pub mod engine;
pub mod patchfile;
pub mod render;
