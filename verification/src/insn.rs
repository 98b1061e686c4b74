//! The bytecode vocabulary shared between the compiler and the
//! interpreter.

use vstd::prelude::*;

verus! {

/// One bytecode instruction.
///
/// Arithmetic works on a dedicated accumulator register plus an operand
/// stack; `Block` carries a nested, independently addressed instruction
/// sequence, and the `Exit`/`Restart` family transfers control by naming
/// how many enclosing blocks to unwind.
#[derive(Debug)]
pub enum Insn {
    /// Push the accumulator, then load the literal as the new accumulator.
    Const(i64),
    /// Push the accumulator without altering it.
    Dup,
    /// accumulator := popped operand + accumulator (wrapping).
    Add,
    /// accumulator := popped operand - accumulator (wrapping).
    Sub,
    /// accumulator := popped operand * accumulator (wrapping).
    Mul,
    /// accumulator := -accumulator (wrapping).
    Negate,
    /// Emit the accumulator to the output, then discard it.
    Print,
    /// Enter a nested instruction sequence.
    Block(Vec<Insn>),
    /// Unwind `level` enclosing blocks and resume the next one from its
    /// start; `Restart(0)` restarts the current block.
    Restart(usize),
    /// Unwind `level` enclosing blocks and resume the next one, or finish
    /// the whole program if none is left.
    Exit(usize),
    /// `Exit(level)`, but only if the consumed condition is non-zero.
    ExitIfTrue(usize),
    /// `Exit(level)`, but only if the consumed condition is zero.
    ExitIfFalse(usize),
    /// Consume a condition; if it is zero, skip the next instruction.
    SkipNextIfFalse,
}

/// A compiled instruction sequence.
pub type Code = Vec<Insn>;

/// The mathematical form of an instruction: the same vocabulary, with a
/// `Block` holding a `Seq` instead of a `Vec`.  Contracts and the
/// machine semantics speak in this form.
#[verifier::ext_equal]
pub ghost enum InsnV {
    Const(i64),
    Dup,
    Add,
    Sub,
    Mul,
    Negate,
    Print,
    Block(Seq<InsnV>),
    Restart(usize),
    Exit(usize),
    ExitIfTrue(usize),
    ExitIfFalse(usize),
    SkipNextIfFalse,
}

/// The mathematical form of one instruction.
pub open spec fn insn_view(i: Insn) -> InsnV
    decreases i,
    via insn_view_decreases
{
    match i {
        Insn::Const(k) => InsnV::Const(k),
        Insn::Dup => InsnV::Dup,
        Insn::Add => InsnV::Add,
        Insn::Sub => InsnV::Sub,
        Insn::Mul => InsnV::Mul,
        Insn::Negate => InsnV::Negate,
        Insn::Print => InsnV::Print,
        Insn::Block(b) => InsnV::Block(code_view(b@)),
        Insn::Restart(n) => InsnV::Restart(n),
        Insn::Exit(n) => InsnV::Exit(n),
        Insn::ExitIfTrue(n) => InsnV::ExitIfTrue(n),
        Insn::ExitIfFalse(n) => InsnV::ExitIfFalse(n),
        Insn::SkipNextIfFalse => InsnV::SkipNextIfFalse,
    }
}

#[via_fn]
proof fn insn_view_decreases(i: Insn) {
    if i is Block {
        let b = i->Block_0;
        assert(decreases_to!(i => i->Block_0));
        assert(decreases_to!(b => b@));
    }
}

/// The mathematical form of an instruction sequence.
pub open spec fn code_view(s: Seq<Insn>) -> Seq<InsnV>
    decreases s,
{
    if s.len() == 0 {
        Seq::empty()
    } else {
        seq![insn_view(s[0])] + code_view(s.drop_first())
    }
}

/// An instruction sequence and its mathematical form have the same
/// length.
pub broadcast proof fn lemma_code_view_len(s: Seq<Insn>)
    ensures
        (#[trigger] code_view(s)).len() == s.len(),
    decreases s,
{
    if s.len() > 0 {
        lemma_code_view_len(s.drop_first());
    }
}

/// Each position of the mathematical form is the view of the
/// instruction at that position.
pub broadcast proof fn lemma_code_view_index(s: Seq<Insn>, j: int)
    requires
        0 <= j < s.len(),
    ensures
        #[trigger] code_view(s)[j] == insn_view(s[j]),
    decreases s,
{
    lemma_code_view_len(s);
    if j > 0 {
        lemma_code_view_index(s.drop_first(), j - 1);
    }
}

/// Appending an instruction appends its view.
pub proof fn lemma_code_view_push(s: Seq<Insn>, i: Insn)
    ensures
        code_view(s.push(i)) == code_view(s).push(insn_view(i)),
{
    broadcast use lemma_code_view_len, lemma_code_view_index;

    assert(code_view(s.push(i)) =~= code_view(s).push(insn_view(i)));
}

} // verus!
