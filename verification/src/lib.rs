//! A minimal expression compiler and bytecode interpreter.
//!
//! Source text is scanned into tokens, compiled by a precedence-climbing
//! parser into a flat instruction sequence, and executed on a value stack.
//! Double-precision arithmetic cannot be carried out inside the verified
//! library, so the virtual machine hands every such operation to its caller
//! through [`vm::Outcome::NeedDouble`] and is resumed with the result bits.

use vstd::prelude::*;

pub mod code;
pub mod compiler;
pub mod laws;
pub mod scanner;
pub mod vm;

verus! {

/// The two recoverable failure kinds: a source text that does not compile,
/// and an execution that cannot proceed (stack underflow or integer division
/// by zero). A compile failure reports the offending source line.
#[derive(Clone, Copy, Debug, PartialEq, Eq, Structural)]
pub enum InterpretError {
    CompileError { line: usize },
    RuntimeError,
}

} // verus!
