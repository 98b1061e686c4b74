//! Diagnostics: every way a compile or a run can fail.

use vstd::prelude::*;

verus! {

/// A diagnostic returned by the compiler or the interpreter.
///
/// Compilation is all-or-nothing: a syntax diagnostic means no code was
/// produced.  The interpreter raises `StackEmpty` when an instruction
/// needs an operand the stack does not hold, and the `Illegal...`
/// variants when a control transfer names more enclosing blocks than are
/// currently suspended; each carries the offending depth.
#[derive(Debug, Clone, Copy, PartialEq, Eq, Structural)]
pub enum Diagnostic {
    /// A factor was required but no digit (or other factor form) follows.
    ExpectedUint,
    /// A decimal literal does not fit in a 64-bit signed integer.
    NumberTooLarge,
    /// An opening parenthesis has no matching `)`.
    UnclosedParen,
    /// `if` without a following `then`.
    MissingThen,
    /// Unconsumed input remains after a complete statement.
    JunkAtEnd,
    /// An instruction needed an operand but the operand stack was empty.
    StackEmpty,
    /// `Exit` named a depth deeper than the suspended blocks.
    IllegalExit(usize),
    /// `ExitIfTrue` named a depth deeper than the suspended blocks.
    IllegalExitIfTrue(usize),
    /// `ExitIfFalse` named a depth deeper than the suspended blocks.
    IllegalExitIfFalse(usize),
    /// `Restart` named a depth deeper than the suspended blocks.
    IllegalRestart(usize),
    /// The step budget handed to the interpreter ran out.
    OutOfFuel,
}

} // verus!
