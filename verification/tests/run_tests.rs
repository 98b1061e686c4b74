use blockvm::insn::Insn::{Add, Block, Const, Exit, Print, SkipNextIfFalse};
use blockvm::vm::VM;
use blockvm::{run, run_expr, RUN_FUEL};

#[test]
fn number1() {
    assert_eq!(run_expr(b"-42"), Ok(-42));
}

#[test]
fn number2() {
    assert_eq!(run_expr(b" - 42"), Ok(-42));
}

#[test]
fn number3() {
    assert_eq!(run_expr(b" 84 - 42"), Ok(42));
}

#[test]
fn number4() {
    assert_eq!(run_expr(b" 84 + -42"), Ok(42));
}

#[test]
fn number5() {
    assert_eq!(run_expr(b"(2)"), Ok(2));
}

#[test]
fn number6() {
    assert!(run_expr(b"(2 + )").is_err());
}

#[test]
fn number7() {
    assert!(run_expr(b" ( 2 ").is_err());
}

#[test]
fn if_stmt() {
    assert!(run(b"if 1 then print 42").is_ok());
    assert!(run(b"if 0 then print 666").is_ok());
}

#[test]
fn execute_test() {
    let mut vm = VM::new();
    assert_eq!(
        vm.execute(
            &vec![Block(vec![
                Const(43),
                Const(42),
                Add,
                Print,
                Const(84),
                Const(1),
                SkipNextIfFalse,
                Exit(0),
                Const(666),
                Print,
                Const(666),
            ])],
            RUN_FUEL,
        ),
        Ok(())
    );
    assert_eq!(vm.tos, 84);
}

#[test]
fn execute_nested() {
    let mut vm = VM::new();
    let blk2 = Block(vec![Const(42), Const(1), SkipNextIfFalse, Exit(1)]);
    let blk1 = Block(vec![blk2, Const(666)]);

    assert_eq!(vm.execute(&vec![blk1], RUN_FUEL), Ok(()));
    assert_eq!(vm.tos, 42);
}
