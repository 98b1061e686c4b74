use blockvm::diag::Diagnostic;
use blockvm::insn::Insn;
use blockvm::vm::VM;
use blockvm::{compile, run, run_expr, RUN_FUEL};

// Decimal literals evaluate to themselves.

#[test]
fn literal_zero() {
    assert_eq!(run(b"0"), Ok(0));
}

#[test]
fn literal_plain() {
    assert_eq!(run(b"7"), Ok(7));
    assert_eq!(run(b"  123  "), Ok(123));
}

#[test]
fn literal_largest() {
    assert_eq!(run(b"9223372036854775807"), Ok(i64::MAX));
}

#[test]
fn literal_too_large() {
    assert_eq!(run(b"9223372036854775808"), Err(Diagnostic::NumberTooLarge));
}

// Operator precedence and grouping.

#[test]
fn precedence_mul_before_add() {
    assert_eq!(run(b"2 + 3 * 4"), Ok(14));
}

#[test]
fn grouping_overrides_precedence() {
    assert_eq!(run(b"(2 + 3) * 4"), Ok(20));
}

#[test]
fn subtraction_is_left_to_right() {
    assert_eq!(run(b"10 - 3 - 2"), Ok(5));
}

#[test]
fn double_negation() {
    assert_eq!(run_expr(b"--42"), Ok(42));
}

// Every syntax diagnostic, on an input that earns it.

#[test]
fn error_expected_uint() {
    assert_eq!(run_expr(b"(2 + )"), Err(Diagnostic::ExpectedUint));
    assert_eq!(run(b""), Err(Diagnostic::ExpectedUint));
}

#[test]
fn error_unclosed_paren() {
    assert_eq!(run_expr(b" ( 2 "), Err(Diagnostic::UnclosedParen));
}

#[test]
fn error_missing_then() {
    assert_eq!(run(b"if 1 print 2"), Err(Diagnostic::MissingThen));
}

#[test]
fn error_junk_at_end() {
    assert_eq!(run(b"1 2"), Err(Diagnostic::JunkAtEnd));
}

// Every interpreter diagnostic, from hand-built bytecode.

#[test]
fn error_stack_empty() {
    let mut vm = VM::new();
    assert_eq!(
        vm.execute(&vec![Insn::Add], RUN_FUEL),
        Err(Diagnostic::StackEmpty)
    );
}

#[test]
fn error_illegal_exit() {
    let mut vm = VM::new();
    assert_eq!(
        vm.execute(&vec![Insn::Exit(1)], RUN_FUEL),
        Err(Diagnostic::IllegalExit(1))
    );
}

#[test]
fn error_illegal_exit_if_true() {
    let mut vm = VM::new();
    assert_eq!(
        vm.execute(&vec![Insn::Const(1), Insn::ExitIfTrue(1)], RUN_FUEL),
        Err(Diagnostic::IllegalExitIfTrue(1))
    );
}

#[test]
fn error_illegal_exit_if_false() {
    let mut vm = VM::new();
    assert_eq!(
        vm.execute(&vec![Insn::Const(0), Insn::ExitIfFalse(1)], RUN_FUEL),
        Err(Diagnostic::IllegalExitIfFalse(1))
    );
}

#[test]
fn error_illegal_restart() {
    let mut vm = VM::new();
    assert_eq!(
        vm.execute(&vec![Insn::Restart(1)], RUN_FUEL),
        Err(Diagnostic::IllegalRestart(1))
    );
}

#[test]
fn error_out_of_fuel() {
    let mut vm = VM::new();
    assert_eq!(
        vm.execute(&vec![Insn::Restart(0)], 10),
        Err(Diagnostic::OutOfFuel)
    );
}

// A block whose body runs to completion exits like a trailing Exit(0).

#[test]
fn block_fall_through() {
    let mut vm = VM::new();
    assert_eq!(
        vm.execute(&vec![Insn::Block(vec![Insn::Const(42)])], RUN_FUEL),
        Ok(())
    );
    assert_eq!(vm.tos, 42);

    let mut vm2 = VM::new();
    assert_eq!(
        vm2.execute(
            &vec![Insn::Block(vec![Insn::Const(42), Insn::Exit(0)])],
            RUN_FUEL
        ),
        Ok(())
    );
    assert_eq!(vm2.tos, 42);
}

// An inner ExitIfFalse(1) with a true condition unwinds both blocks,
// skipping the rest of the outer block too.

#[test]
fn nested_exit_skips_outer_rest() {
    let inner = Insn::Block(vec![Insn::Const(42), Insn::Const(0), Insn::ExitIfFalse(1)]);
    let outer = Insn::Block(vec![inner, Insn::Const(666)]);
    let mut vm = VM::new();
    assert_eq!(vm.execute(&vec![outer], RUN_FUEL), Ok(()));
    assert_eq!(vm.tos, 42);
}

// `if` statements: a true condition prints, a false one prints nothing
// and the program still ends well.

#[test]
fn if_true_emits() {
    let code = compile(b"if 1 then print 42").unwrap();
    let mut vm = VM::new();
    assert_eq!(vm.execute(&code, RUN_FUEL), Ok(()));
    assert_eq!(vm.output, vec![42]);
}

#[test]
fn if_false_emits_nothing() {
    let code = compile(b"if 0 then print 666").unwrap();
    let mut vm = VM::new();
    assert_eq!(vm.execute(&code, RUN_FUEL), Ok(()));
    assert_eq!(vm.output, Vec::<i64>::new());
}

#[test]
fn print_records_value_in_order() {
    let code = compile(b"print 5 + 6").unwrap();
    let mut vm = VM::new();
    assert_eq!(vm.execute(&code, RUN_FUEL), Ok(()));
    assert_eq!(vm.output, vec![11]);
}

// Compiling the same source twice yields structurally equal programs.

#[test]
fn compile_is_deterministic() {
    let first = compile(b"if 1 then print 2 + 3 * -4").unwrap();
    let second = compile(b"if 1 then print 2 + 3 * -4").unwrap();
    assert_eq!(format!("{:?}", first), format!("{:?}", second));
}

// Malformed input returns a diagnostic; nothing panics.

#[test]
fn malformed_inputs_fail_cleanly() {
    assert!(run(b"(2 + )").is_err());
    assert!(run(b" ( 2 ").is_err());
    assert!(run(b"+").is_err());
    assert!(run(b"print").is_err());
    assert!(run(b"if then").is_err());
}

// The machine arithmetic wraps, matching the documented semantics.

#[test]
fn arithmetic_wraps() {
    let mut vm = VM::new();
    assert_eq!(
        vm.execute(
            &vec![Insn::Const(i64::MAX), Insn::Const(1), Insn::Add],
            RUN_FUEL
        ),
        Ok(())
    );
    assert_eq!(vm.tos, i64::MIN);

    let mut vm2 = VM::new();
    assert_eq!(
        vm2.execute(&vec![Insn::Const(i64::MIN), Insn::Negate], RUN_FUEL),
        Ok(())
    );
    assert_eq!(vm2.tos, i64::MIN);
}

// Restart(0) re-runs the current block from its start without touching
// the frame stack, so this block never ends.

#[test]
fn restart_loops_until_fuel_runs_out() {
    let looping = Insn::Block(vec![Insn::Dup, Insn::Restart(0)]);
    let mut vm = VM::new();
    assert_eq!(
        vm.execute(&vec![looping], 1000),
        Err(Diagnostic::OutOfFuel)
    );
}

// Restart(n) follows the same unwinding rule as Exit(n): dropping every
// suspended frame ends the whole run normally.

#[test]
fn restart_unwinding_all_frames_terminates() {
    let mut vm = VM::new();
    assert_eq!(
        vm.execute(
            &vec![Insn::Block(vec![Insn::Const(7), Insn::Restart(1)])],
            RUN_FUEL
        ),
        Ok(())
    );
    assert_eq!(vm.tos, 7);
}

// When a frame is left, Restart resumes it from its start, not from
// its saved position: here the root sequence restarts and re-enters
// the blocks forever (resuming at the saved position would end the
// run at once).

#[test]
fn restart_resumes_outer_block_from_start() {
    let inner = Insn::Block(vec![Insn::Restart(1)]);
    let outer = Insn::Block(vec![inner]);
    let mut vm = VM::new();
    assert_eq!(vm.execute(&vec![outer], 1000), Err(Diagnostic::OutOfFuel));
}
