//! The mathematical small-step semantics of the bytecode machine.
//!
//! A `Machine` is the whole configuration: the current instruction
//! sequence, the program counter within it, the stack of suspended
//! enclosing blocks, and the observable state (operand stack,
//! accumulator, output).  `step` performs exactly one dispatch as the
//! interpreter does; `run_n` iterates it for a bounded number of steps.
//! The executable interpreter is proved to agree with `run_n` exactly.

use vstd::prelude::*;

use crate::diag::Diagnostic;
use crate::insn::InsnV;

verus! {

/// The observable machine state: operand stack, accumulator register
/// ("top of stack") and the values printed so far.
#[verifier::ext_equal]
pub ghost struct VmState {
    pub stack: Seq<i64>,
    pub tos: i64,
    pub out: Seq<i64>,
}

/// A suspended enclosing block: the sequence to go back to and the
/// position at which to resume it.
#[verifier::ext_equal]
pub ghost struct Frame {
    pub code: Seq<InsnV>,
    pub pc: nat,
}

/// A whole machine configuration.
#[verifier::ext_equal]
pub ghost struct Machine {
    pub code: Seq<InsnV>,
    pub pc: nat,
    pub frames: Seq<Frame>,
    pub vm: VmState,
}

/// What one step (or a bounded run) of the machine yields.
#[verifier::ext_equal]
pub ghost enum Outcome {
    /// Not finished: this is the next configuration.
    Running(Machine),
    /// The run terminated; the accumulator of this state is the result.
    Done(VmState),
    /// The run aborted with a diagnostic, leaving this state behind.
    Failed(VmState, Diagnostic),
}

/// A fresh observable state: empty operand stack, accumulator zero,
/// nothing printed.
pub open spec fn init_vm() -> VmState {
    VmState { stack: Seq::empty(), tos: 0, out: Seq::empty() }
}

/// The machine at the start of a program.
pub open spec fn start(code: Seq<InsnV>, vm: VmState) -> Machine {
    Machine { code, pc: 0, frames: Seq::empty(), vm }
}

/// The instruction about to execute; running off the end of a sequence
/// behaves exactly like an explicit `Exit(0)`.
pub open spec fn fetch(m: Machine) -> InsnV {
    if m.pc < m.code.len() {
        m.code[m.pc as int]
    } else {
        InsnV::Exit(0)
    }
}

/// The state after the pop primitive: the accumulator is replaced by the
/// top of the operand stack (the popped value is the old accumulator).
pub open spec fn after_pop(vm: VmState) -> VmState
    recommends
        vm.stack.len() > 0,
{
    VmState { stack: vm.stack.drop_last(), tos: vm.stack.last(), ..vm }
}

/// Unwind `n` of the suspended frames and resume the next one — from its
/// saved position, or from its start when `restart` holds.  With no
/// frame left the whole run terminates.
pub open spec fn unwind(m: Machine, n: nat, restart: bool) -> Outcome
    recommends
        n <= m.frames.len(),
{
    let rem = m.frames.take(m.frames.len() - n);
    if rem.len() == 0 {
        Outcome::Done(m.vm)
    } else {
        Outcome::Running(
            Machine {
                code: rem.last().code,
                pc: if restart { 0 } else { rem.last().pc },
                frames: rem.drop_last(),
                vm: m.vm,
            },
        )
    }
}

/// The program counter two steps on, capped at the end of the sequence
/// (any position at or past the end already means "fall off the end").
pub open spec fn skip_target(pc: nat, len: nat) -> nat {
    if pc + 2 <= len {
        pc + 2
    } else {
        len
    }
}

/// One dispatch step of the machine.
pub open spec fn step(m: Machine) -> Outcome {
    let v = m.vm;
    match fetch(m) {
        InsnV::Const(k) => Outcome::Running(
            Machine {
                pc: m.pc + 1,
                vm: VmState { stack: v.stack.push(v.tos), tos: k, ..v },
                ..m
            },
        ),
        InsnV::Dup => Outcome::Running(
            Machine { pc: m.pc + 1, vm: VmState { stack: v.stack.push(v.tos), ..v }, ..m },
        ),
        InsnV::Add => if v.stack.len() == 0 {
            Outcome::Failed(v, Diagnostic::StackEmpty)
        } else {
            Outcome::Running(
                Machine {
                    pc: m.pc + 1,
                    vm: VmState {
                        stack: v.stack.drop_last(),
                        tos: vstd::wrapping::i64_specs::wrapping_add(v.stack.last(), v.tos),
                        ..v
                    },
                    ..m
                },
            )
        },
        InsnV::Sub => if v.stack.len() == 0 {
            Outcome::Failed(v, Diagnostic::StackEmpty)
        } else {
            Outcome::Running(
                Machine {
                    pc: m.pc + 1,
                    vm: VmState {
                        stack: v.stack.drop_last(),
                        tos: vstd::wrapping::i64_specs::wrapping_sub(v.stack.last(), v.tos),
                        ..v
                    },
                    ..m
                },
            )
        },
        InsnV::Mul => if v.stack.len() == 0 {
            Outcome::Failed(v, Diagnostic::StackEmpty)
        } else {
            Outcome::Running(
                Machine {
                    pc: m.pc + 1,
                    vm: VmState {
                        stack: v.stack.drop_last(),
                        tos: vstd::wrapping::i64_specs::wrapping_mul(v.stack.last(), v.tos),
                        ..v
                    },
                    ..m
                },
            )
        },
        InsnV::Negate => Outcome::Running(
            Machine {
                pc: m.pc + 1,
                vm: VmState { tos: vstd::wrapping::i64_specs::wrapping_sub(0, v.tos), ..v },
                ..m
            },
        ),
        InsnV::Print => if v.stack.len() == 0 {
            Outcome::Failed(v, Diagnostic::StackEmpty)
        } else {
            Outcome::Running(
                Machine {
                    pc: m.pc + 1,
                    vm: VmState { out: v.out.push(v.tos), ..after_pop(v) },
                    ..m
                },
            )
        },
        InsnV::Block(inner) => Outcome::Running(
            Machine {
                code: inner,
                pc: 0,
                frames: m.frames.push(Frame { code: m.code, pc: m.pc + 1 }),
                vm: v,
            },
        ),
        InsnV::SkipNextIfFalse => if v.stack.len() == 0 {
            Outcome::Failed(v, Diagnostic::StackEmpty)
        } else {
            Outcome::Running(
                Machine {
                    pc: if v.tos == 0 {
                        skip_target(m.pc, m.code.len())
                    } else {
                        m.pc + 1
                    },
                    vm: after_pop(v),
                    ..m
                },
            )
        },
        InsnV::Exit(n) => if n > m.frames.len() {
            Outcome::Failed(v, Diagnostic::IllegalExit(n))
        } else {
            unwind(m, n as nat, false)
        },
        InsnV::ExitIfTrue(n) => if v.stack.len() == 0 {
            Outcome::Failed(v, Diagnostic::StackEmpty)
        } else if v.tos != 0 {
            if n > m.frames.len() {
                Outcome::Failed(after_pop(v), Diagnostic::IllegalExitIfTrue(n))
            } else {
                unwind(Machine { vm: after_pop(v), ..m }, n as nat, false)
            }
        } else {
            Outcome::Running(Machine { pc: m.pc + 1, vm: after_pop(v), ..m })
        },
        InsnV::ExitIfFalse(n) => if v.stack.len() == 0 {
            Outcome::Failed(v, Diagnostic::StackEmpty)
        } else if v.tos == 0 {
            if n > m.frames.len() {
                Outcome::Failed(after_pop(v), Diagnostic::IllegalExitIfFalse(n))
            } else {
                unwind(Machine { vm: after_pop(v), ..m }, n as nat, false)
            }
        } else {
            Outcome::Running(Machine { pc: m.pc + 1, vm: after_pop(v), ..m })
        },
        InsnV::Restart(n) => if n == 0 {
            Outcome::Running(Machine { pc: 0, ..m })
        } else if n > m.frames.len() {
            Outcome::Failed(v, Diagnostic::IllegalRestart(n))
        } else {
            unwind(m, n as nat, true)
        },
    }
}

/// At most `n` steps of the machine: the configuration still running
/// after `n` steps, or the final or failed state reached on the way.
pub open spec fn run_n(m: Machine, n: nat) -> Outcome
    decreases n,
{
    if n == 0 {
        Outcome::Running(m)
    } else {
        match step(m) {
            Outcome::Running(m2) => run_n(m2, (n - 1) as nat),
            r => r,
        }
    }
}

/// Falling off the end of a sequence is the same as executing an
/// explicit trailing `Exit(0)` there: a block whose body runs to
/// completion exits it exactly like `Exit(0)` would.
pub proof fn lemma_fall_through(m: Machine)
    requires
        m.pc >= m.code.len(),
    ensures
        step(m) == step(
            Machine { code: m.code.push(InsnV::Exit(0)), pc: m.code.len(), ..m },
        ),
{
    let me = Machine { code: m.code.push(InsnV::Exit(0)), pc: m.code.len(), ..m };
    assert(fetch(m) == InsnV::Exit(0));
    assert(fetch(me) == InsnV::Exit(0));
    assert(m.frames.take(m.frames.len() as int) == m.frames);
    assert(me.frames.take(me.frames.len() as int) == me.frames);
}

} // verus!
