//! A small compiler and stack-machine interpreter for an arithmetic
//! expression language with a structured `if` statement.
//!
//! Source text is compiled by a recursive-descent parser into a nested
//! bytecode representation (`insn::Insn`), which a virtual machine
//! (`vm::VM`) executes with an operand stack, an accumulator register
//! and an explicit frame stack for depth-counted block exits.  The
//! mathematical meaning of a program is given by the small-step
//! semantics in `semantics`; every entry point's contract is stated in
//! terms of it.

pub mod cursor;
pub mod diag;
pub mod insn;
pub mod laws;
pub mod parser;
pub mod semantics;
pub mod vm;

use vstd::prelude::*;

use crate::cursor::Cursor;
use crate::diag::Diagnostic;
use crate::insn::{code_view, Code, Insn};
use crate::parser::{parse, parse_expr, spec_compile, spec_compile_expr};
use crate::semantics::{init_vm, run_n, start, Outcome};
use crate::vm::VM;

verus! {

/// The step budget the convenience entry points hand the interpreter.
/// A compiled program holds no `Restart` anywhere and halts within its
/// weight (`laws::lemma_compiled_program_halts`), so only hand-built
/// bytecode can loop; a run longer than this budget is cut off with
/// `Diagnostic::OutOfFuel`.
pub const RUN_FUEL: u64 = u64::MAX;

/// Compile a whole source text into a program, or say exactly why not.
/// Leading and trailing whitespace is tolerated; unconsumed input after
/// a complete statement is junk.
pub fn compile(source: &[u8]) -> (r: Result<Code, Diagnostic>)
    ensures
        spec_compile(source@) matches Ok(cv) ==> r matches Ok(code) && code_view(code@) == cv,
        spec_compile(source@) matches Err(d) ==> r == Err::<Code, Diagnostic>(d),
{
    let mut c = Cursor::new(source);
    c.skip_whitespace();
    let mut code: Code = Vec::new();
    match parse(&mut c, &mut code) {
        Ok(()) => {
            proof {
                if spec_compile(source@) is Ok {
                    let cv = spec_compile(source@)->Ok_0;
                    assert(code_view(Seq::<Insn>::empty()) + cv =~= cv);
                }
            }
            Ok(code)
        },
        Err(d) => Err(d),
    }
}

/// Compile and execute a whole source text, returning the final
/// accumulator value, or the diagnostic of whichever stage failed.
pub fn run(source: &[u8]) -> (r: Result<i64, Diagnostic>)
    ensures
        spec_compile(source@) matches Err(d) ==> r == Err::<i64, Diagnostic>(d),
        spec_compile(source@) matches Ok(cv) ==> match run_n(
            start(cv, init_vm()),
            RUN_FUEL as nat,
        ) {
            Outcome::Done(v) => r == Ok::<i64, Diagnostic>(v.tos),
            Outcome::Failed(v, d) => r == Err::<i64, Diagnostic>(d),
            Outcome::Running(m) => r == Err::<i64, Diagnostic>(Diagnostic::OutOfFuel),
        },
{
    match compile(source) {
        Err(d) => Err(d),
        Ok(code) => {
            let mut vm = VM::new();
            proof {
                assert(vm@ =~= init_vm());
            }
            match vm.execute(&code, RUN_FUEL) {
                Ok(()) => Ok(vm.tos),
                Err(d) => Err(d),
            }
        },
    }
}

/// Compile and execute a source text as a bare expression (no `print`,
/// no `if`; input beyond the expression is left unread), returning its
/// value.
pub fn run_expr(source: &[u8]) -> (r: Result<i64, Diagnostic>)
    ensures
        spec_compile_expr(source@) matches Err(d) ==> r == Err::<i64, Diagnostic>(d),
        spec_compile_expr(source@) matches Ok(cv) ==> match run_n(
            start(cv, init_vm()),
            RUN_FUEL as nat,
        ) {
            Outcome::Done(v) => r == Ok::<i64, Diagnostic>(v.tos),
            Outcome::Failed(v, d) => r == Err::<i64, Diagnostic>(d),
            Outcome::Running(m) => r == Err::<i64, Diagnostic>(Diagnostic::OutOfFuel),
        },
{
    let mut c = Cursor::new(source);
    c.skip_whitespace();
    let mut code: Code = Vec::new();
    match parse_expr(&mut c, &mut code) {
        Err(d) => {
            return Err(d);
        },
        Ok(()) => {},
    }
    proof {
        let cv = spec_compile_expr(source@)->Ok_0;
        assert(code_view(Seq::<Insn>::empty()) + cv =~= cv);
    }
    let mut vm = VM::new();
    proof {
        assert(vm@ =~= init_vm());
    }
    match vm.execute(&code, RUN_FUEL) {
        Ok(()) => Ok(vm.tos),
        Err(d) => Err(d),
    }
}

} // verus!
