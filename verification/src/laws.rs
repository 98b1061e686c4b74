//! Laws that hold of the library as a whole, stated over the
//! specification functions its contracts use and proved once and for
//! all.

use vstd::prelude::*;

use crate::cursor::{
    after_token, digits_end, digits_val, is_digit, is_space, lemma_digits_end,
    lemma_digits_val_mono, lemma_skip_spaces, skip_spaces, spec_parse_uint, starts_with,
};
use crate::diag::Diagnostic;
use crate::insn::{code_view, Insn, InsnV};
use crate::parser::{
    kw_if, kw_print, kw_then, spec_compile, spec_expr, spec_expr_tail, spec_factor, spec_stmt,
    spec_term, spec_term_tail,
};
use crate::semantics::{
    after_pop, fetch, init_vm, run_n, start, step, unwind, Frame, Machine, Outcome, VmState,
};
use crate::RUN_FUEL;

verus! {

/// No `Restart` occurs in the instruction, not even inside a nested
/// block.
pub open spec fn insn_restart_free(i: InsnV) -> bool
    decreases i,
{
    match i {
        InsnV::Restart(_) => false,
        InsnV::Block(b) => restart_free(b),
        _ => true,
    }
}

/// No `Restart` occurs anywhere in the instruction sequence.
pub open spec fn restart_free(c: Seq<InsnV>) -> bool
    decreases c,
{
    c.len() == 0 || (insn_restart_free(c[0]) && restart_free(c.drop_first()))
}

/// Sequence facts about `restart_free` used below: it distributes over
/// `push` and concatenation.
proof fn lemma_restart_free_push(c: Seq<InsnV>, i: InsnV)
    requires
        restart_free(c),
        insn_restart_free(i),
    ensures
        restart_free(c.push(i)),
    decreases c,
{
    if c.len() == 0 {
        assert(c.push(i)[0] == i);
        assert(c.push(i).drop_first() =~= Seq::<InsnV>::empty());
        assert(restart_free(c.push(i).drop_first()));
    } else {
        lemma_restart_free_push(c.drop_first(), i);
        assert(c.push(i)[0] == c[0]);
        assert(c.push(i).drop_first() =~= c.drop_first().push(i));
        assert(restart_free(c.push(i).drop_first()));
    }
}

proof fn lemma_restart_free_add(a: Seq<InsnV>, b: Seq<InsnV>)
    requires
        restart_free(a),
        restart_free(b),
    ensures
        restart_free(a + b),
    decreases a,
{
    if a.len() == 0 {
        assert(a + b =~= b);
    } else {
        lemma_restart_free_add(a.drop_first(), b);
        assert((a + b).drop_first() =~= a.drop_first() + b);
        assert((a + b)[0] == a[0]);
        assert(restart_free((a + b).drop_first()));
    }
}

proof fn lemma_restart_free_one(i: InsnV)
    requires
        insn_restart_free(i),
    ensures
        restart_free(seq![i]),
{
    assert(seq![i].drop_first() =~= Seq::<InsnV>::empty());
    assert(restart_free(seq![i].drop_first()));
}

/// Matching a token always consumes it: what is left is shorter by at
/// least the token.
proof fn lemma_after_token_len(s: Seq<u8>, p: Seq<u8>)
    requires
        starts_with(s, p),
    ensures
        after_token(s, p).len() <= s.len() - p.len(),
{
    lemma_skip_spaces(s.skip(p.len() as int));
}

proof fn lemma_factor_progress(s: Seq<u8>)
    ensures
        spec_factor(s) matches Ok(p) ==> p.1.len() < s.len() && restart_free(p.0),
    decreases s.len(), 0nat,
{
    if starts_with(s, seq![40u8]) {
        lemma_after_token_len(s, seq![40u8]);
        let s1 = after_token(s, seq![40u8]);
        if s1.len() < s.len() && spec_expr(s1) is Ok {
            lemma_expr_progress(s1);
            let p = spec_expr(s1)->Ok_0;
            if starts_with(p.1, seq![41u8]) {
                lemma_after_token_len(p.1, seq![41u8]);
            }
        }
    } else if starts_with(s, seq![45u8]) {
        lemma_after_token_len(s, seq![45u8]);
        let s1 = after_token(s, seq![45u8]);
        if s1.len() < s.len() && spec_factor(s1) is Ok {
            lemma_factor_progress(s1);
            let p = spec_factor(s1)->Ok_0;
            lemma_restart_free_push(p.0, InsnV::Negate);
        }
    } else if spec_parse_uint(s) is Ok {
        lemma_digits_end(s);
        lemma_skip_spaces(s.skip(digits_end(s) as int));
        assert(digits_end(s) >= 1);
        lemma_restart_free_one(InsnV::Const(spec_parse_uint(s)->Ok_0.0));
    }
}

proof fn lemma_term_tail_progress(s: Seq<u8>)
    ensures
        spec_term_tail(s) matches Ok(p) ==> p.1.len() <= s.len() && restart_free(p.0),
    decreases s.len(), 1nat,
{
    if starts_with(s, seq![42u8]) {
        lemma_after_token_len(s, seq![42u8]);
        let s1 = after_token(s, seq![42u8]);
        if s1.len() < s.len() && spec_factor(s1) is Ok {
            lemma_factor_progress(s1);
            let p = spec_factor(s1)->Ok_0;
            if p.1.len() < s.len() && spec_term_tail(p.1) is Ok {
                lemma_term_tail_progress(p.1);
                let q = spec_term_tail(p.1)->Ok_0;
                lemma_restart_free_push(p.0, InsnV::Mul);
                lemma_restart_free_add(p.0.push(InsnV::Mul), q.0);
            }
        }
    } else {
        assert(restart_free(Seq::<InsnV>::empty()));
    }
}

proof fn lemma_term_progress(s: Seq<u8>)
    ensures
        spec_term(s) matches Ok(p) ==> p.1.len() < s.len() && restart_free(p.0),
    decreases s.len(), 2nat,
{
    lemma_factor_progress(s);
    if spec_factor(s) is Ok {
        let p = spec_factor(s)->Ok_0;
        if p.1.len() <= s.len() && spec_term_tail(p.1) is Ok {
            lemma_term_tail_progress(p.1);
            let q = spec_term_tail(p.1)->Ok_0;
            lemma_restart_free_add(p.0, q.0);
        }
    }
}

proof fn lemma_expr_tail_progress(s: Seq<u8>)
    ensures
        spec_expr_tail(s) matches Ok(p) ==> p.1.len() <= s.len() && restart_free(p.0),
    decreases s.len(), 3nat,
{
    if starts_with(s, seq![43u8]) {
        lemma_after_token_len(s, seq![43u8]);
        let s1 = after_token(s, seq![43u8]);
        if s1.len() < s.len() && spec_term(s1) is Ok {
            lemma_term_progress(s1);
            let p = spec_term(s1)->Ok_0;
            if p.1.len() < s.len() && spec_expr_tail(p.1) is Ok {
                lemma_expr_tail_progress(p.1);
                let q = spec_expr_tail(p.1)->Ok_0;
                lemma_restart_free_push(p.0, InsnV::Add);
                lemma_restart_free_add(p.0.push(InsnV::Add), q.0);
            }
        }
    } else if starts_with(s, seq![45u8]) {
        lemma_after_token_len(s, seq![45u8]);
        let s1 = after_token(s, seq![45u8]);
        if s1.len() < s.len() && spec_term(s1) is Ok {
            lemma_term_progress(s1);
            let p = spec_term(s1)->Ok_0;
            if p.1.len() < s.len() && spec_expr_tail(p.1) is Ok {
                lemma_expr_tail_progress(p.1);
                let q = spec_expr_tail(p.1)->Ok_0;
                lemma_restart_free_push(p.0, InsnV::Sub);
                lemma_restart_free_add(p.0.push(InsnV::Sub), q.0);
            }
        }
    } else {
        assert(restart_free(Seq::<InsnV>::empty()));
    }
}

proof fn lemma_expr_progress(s: Seq<u8>)
    ensures
        spec_expr(s) matches Ok(p) ==> p.1.len() < s.len() && restart_free(p.0),
    decreases s.len(), 4nat,
{
    lemma_term_progress(s);
    if spec_term(s) is Ok {
        let p = spec_term(s)->Ok_0;
        if p.1.len() <= s.len() && spec_expr_tail(p.1) is Ok {
            lemma_expr_tail_progress(p.1);
            let q = spec_expr_tail(p.1)->Ok_0;
            lemma_restart_free_add(p.0, q.0);
        }
    }
}

proof fn lemma_stmt_progress(s: Seq<u8>)
    ensures
        spec_stmt(s) matches Ok(p) ==> p.1.len() < s.len() && restart_free(p.0),
    decreases s.len(), 5nat,
{
    if starts_with(s, kw_print()) {
        lemma_after_token_len(s, kw_print());
        let s1 = after_token(s, kw_print());
        if s1.len() < s.len() && spec_expr(s1) is Ok {
            lemma_expr_progress(s1);
            let p = spec_expr(s1)->Ok_0;
            lemma_restart_free_push(p.0, InsnV::Print);
        }
    } else if starts_with(s, kw_if()) {
        lemma_after_token_len(s, kw_if());
        let s1 = after_token(s, kw_if());
        if s1.len() < s.len() && spec_expr(s1) is Ok {
            lemma_expr_progress(s1);
            let p = spec_expr(s1)->Ok_0;
            if starts_with(p.1, kw_then()) {
                lemma_after_token_len(p.1, kw_then());
                let s3 = after_token(p.1, kw_then());
                if s3.len() < s.len() && spec_stmt(s3) is Ok {
                    lemma_stmt_progress(s3);
                    let q = spec_stmt(s3)->Ok_0;
                    lemma_restart_free_push(p.0, InsnV::ExitIfFalse(0));
                    lemma_restart_free_add(p.0.push(InsnV::ExitIfFalse(0)), q.0);
                    lemma_restart_free_one(
                        InsnV::Block(p.0.push(InsnV::ExitIfFalse(0)) + q.0),
                    );
                }
            }
        }
    } else {
        lemma_expr_progress(s);
    }
}

/// A successful parse consumes input — at least one byte for a factor,
/// term, expression or statement — and the instructions it emits hold
/// no `Restart`: the compiler cannot build a program that loops.
pub proof fn lemma_parse_progress(s: Seq<u8>)
    ensures
        spec_factor(s) matches Ok(p) ==> p.1.len() < s.len() && restart_free(p.0),
        spec_term(s) matches Ok(p) ==> p.1.len() < s.len() && restart_free(p.0),
        spec_expr(s) matches Ok(p) ==> p.1.len() < s.len() && restart_free(p.0),
        spec_stmt(s) matches Ok(p) ==> p.1.len() < s.len() && restart_free(p.0),
{
    lemma_factor_progress(s);
    lemma_term_progress(s);
    lemma_expr_progress(s);
    lemma_stmt_progress(s);
}

/// A compiled program holds no `Restart` anywhere, so only hand-built
/// bytecode can loop.
pub proof fn lemma_compiled_restart_free(s: Seq<u8>)
    ensures
        spec_compile(s) matches Ok(cv) ==> restart_free(cv),
{
    lemma_parse_progress(skip_spaces(s));
}

/// Every element of a `Restart`-free sequence is `Restart`-free.
proof fn lemma_restart_free_index(c: Seq<InsnV>, i: int)
    requires
        restart_free(c),
        0 <= i < c.len(),
    ensures
        insn_restart_free(c[i]),
    decreases c,
{
    if i > 0 {
        lemma_restart_free_index(c.drop_first(), i - 1);
        assert(c.drop_first()[i - 1] == c[i]);
    }
}

/// How many machine steps an instruction can cost before it is gone
/// for good: one for itself, and for a block one to enter it, its
/// body's budget, and one to fall off its end.
pub open spec fn insn_weight(i: InsnV) -> nat
    decreases i,
{
    match i {
        InsnV::Block(b) => 3 + seq_weight(b),
        _ => 1,
    }
}

/// The step budget of a whole instruction sequence.
pub open spec fn seq_weight(c: Seq<InsnV>) -> nat
    decreases c,
{
    if c.len() == 0 {
        0
    } else {
        insn_weight(c[0]) + seq_weight(c.drop_first())
    }
}

/// The budget of the part of a sequence that is still to run, plus one
/// step for falling off its end.
pub open spec fn rest_measure(c: Seq<InsnV>, pc: nat) -> nat {
    if pc < c.len() {
        1 + seq_weight(c.skip(pc as int))
    } else {
        1
    }
}

/// The budget of a stack of suspended frames.
pub open spec fn frames_measure(fs: Seq<Frame>) -> nat
    decreases fs,
{
    if fs.len() == 0 {
        0
    } else {
        frames_measure(fs.drop_last()) + rest_measure(fs.last().code, fs.last().pc)
    }
}

/// The budget of a whole configuration: an upper bound on the steps it
/// can still take, as `lemma_step_decreases` shows.
pub open spec fn machine_measure(m: Machine) -> nat {
    rest_measure(m.code, m.pc) + frames_measure(m.frames)
}

/// No `Restart` occurs anywhere in the configuration: not in the
/// current sequence and not in any suspended one.
pub open spec fn frames_restart_free(fs: Seq<Frame>) -> bool
    decreases fs,
{
    fs.len() == 0 || (restart_free(fs.last().code) && frames_restart_free(fs.drop_last()))
}

pub open spec fn machine_restart_free(m: Machine) -> bool {
    restart_free(m.code) && frames_restart_free(m.frames)
}

/// Unfolding the budget of a sequence at any position.
proof fn lemma_seq_weight_at(c: Seq<InsnV>, k: int)
    requires
        0 <= k < c.len(),
    ensures
        seq_weight(c.skip(k)) == insn_weight(c[k]) + seq_weight(c.skip(k + 1)),
        seq_weight(c.skip(k)) >= insn_weight(c[k]),
    decreases k,
{
    if k == 0 {
        assert(c.skip(0) =~= c);
        assert(c.skip(0).drop_first() =~= c.skip(1));
    } else {
        lemma_seq_weight_at(c.drop_first(), k - 1);
        assert(c.drop_first().skip(k - 1) =~= c.skip(k));
        assert(c.drop_first().skip(k) =~= c.skip(k + 1));
        assert(c.drop_first()[k - 1] == c[k]);
    }
}

/// Budget facts about the frame stack: pushing adds the new frame's
/// budget, and any prefix of the stack costs no more than the whole.
proof fn lemma_frames_measure_push(fs: Seq<Frame>, f: Frame)
    ensures
        frames_measure(fs.push(f)) == frames_measure(fs) + rest_measure(f.code, f.pc),
        frames_restart_free(fs) && restart_free(f.code) ==> frames_restart_free(fs.push(f)),
{
    assert(fs.push(f).drop_last() =~= fs);
    assert(fs.push(f).last() == f);
}

proof fn lemma_frames_measure_take(fs: Seq<Frame>, k: int)
    requires
        0 <= k <= fs.len(),
    ensures
        frames_measure(fs.take(k)) <= frames_measure(fs),
        frames_restart_free(fs) ==> frames_restart_free(fs.take(k)),
    decreases fs.len() - k,
{
    if k == fs.len() {
        assert(fs.take(k) =~= fs);
    } else {
        lemma_frames_measure_take(fs, k + 1);
        let t = fs.take(k + 1);
        assert(t.drop_last() =~= fs.take(k));
        assert(frames_measure(t) == frames_measure(fs.take(k)) + rest_measure(
            t.last().code,
            t.last().pc,
        ));
    }
}

/// Every instruction costs at least one step.
proof fn lemma_insn_weight_pos(i: InsnV)
    ensures
        insn_weight(i) >= 1,
{
}

/// One step of a `Restart`-free machine stays `Restart`-free and
/// strictly shrinks the budget — the heart of the halting argument.
#[verifier::rlimit(60)]
#[verifier::spinoff_prover]
proof fn lemma_step_decreases(m: Machine)
    requires
        machine_restart_free(m),
    ensures
        step(m) matches Outcome::Running(m2) ==> machine_restart_free(m2)
            && machine_measure(m2) < machine_measure(m),
{
    let len = m.code.len();
    if m.pc < len {
        lemma_restart_free_index(m.code, m.pc as int);
        lemma_insn_weight_pos(m.code[m.pc as int]);
        lemma_seq_weight_at(m.code, m.pc as int);
        if m.pc + 1 < len {
            lemma_seq_weight_at(m.code, m.pc as int + 1);
            lemma_insn_weight_pos(m.code[m.pc as int + 1]);
            if m.pc + 2 == len {
                assert(m.code.skip(m.pc as int + 2) =~= Seq::<InsnV>::empty());
            }
        } else {
            assert(m.code.skip(m.pc as int + 1) =~= Seq::<InsnV>::empty());
        }
    }
    match fetch(m) {
        InsnV::Block(b) => {
            let f = Frame { code: m.code, pc: m.pc + 1 };
            lemma_frames_measure_push(m.frames, f);
            assert(b.skip(0) =~= b);
        },
        InsnV::Exit(n) => {
            if n <= m.frames.len() {
                lemma_unwind_decreases(m, n as nat);
            }
        },
        InsnV::ExitIfTrue(n) => {
            if m.vm.stack.len() > 0 && m.vm.tos != 0 && n <= m.frames.len() {
                lemma_unwind_decreases(Machine { vm: after_pop(m.vm), ..m }, n as nat);
            }
        },
        InsnV::ExitIfFalse(n) => {
            if m.vm.stack.len() > 0 && m.vm.tos == 0 && n <= m.frames.len() {
                lemma_unwind_decreases(Machine { vm: after_pop(m.vm), ..m }, n as nat);
            }
        },
        InsnV::Restart(n) => {
            assert(false);
        },
        _ => {},
    }
}

/// The unwinding shared by the `Exit` family lands in a configuration
/// whose budget is that of the surviving frames — strictly below the
/// whole machine's.
proof fn lemma_unwind_decreases(m: Machine, n: nat)
    requires
        frames_restart_free(m.frames),
        n <= m.frames.len(),
    ensures
        unwind(m, n, false) matches Outcome::Running(m2) ==> machine_restart_free(m2)
            && machine_measure(m2) + 1 <= frames_measure(m.frames) + 1
            && machine_measure(m2) < machine_measure(m),
{
    lemma_frames_measure_take(m.frames, m.frames.len() - n);
    let rem = m.frames.take(m.frames.len() - n);
    if rem.len() > 0 {
        assert(frames_measure(rem) == frames_measure(rem.drop_last()) + rest_measure(
            rem.last().code,
            rem.last().pc,
        ));
    }
}

/// A `Restart`-free machine halts — it finishes or fails within its
/// budget — so every compiled program halts, and a run budget of at
/// least the program's weight can never be exhausted.
pub proof fn lemma_restart_free_halts(m: Machine, n: nat)
    requires
        machine_restart_free(m),
        machine_measure(m) <= n,
    ensures
        !(run_n(m, n) is Running),
    decreases n,
{
    lemma_step_decreases(m);
    match step(m) {
        Outcome::Running(m2) => {
            lemma_restart_free_halts(m2, (n - 1) as nat);
        },
        _ => {},
    }
}

/// Every compiled program halts: executed with a budget of at least
/// its weight — `run` grants `u64::MAX` — it cannot run out of fuel.
pub proof fn lemma_compiled_program_halts(s: Seq<u8>, fuel: nat)
    ensures
        spec_compile(s) matches Ok(cv) ==> seq_weight(cv) + 1 <= fuel ==> !(run_n(
            start(cv, init_vm()),
            fuel,
        ) is Running),
{
    if spec_compile(s) is Ok {
        let cv = spec_compile(s)->Ok_0;
        lemma_compiled_restart_free(s);
        if seq_weight(cv) + 1 <= fuel {
            let m = start(cv, init_vm());
            assert(m.code.skip(0) =~= cv);
            lemma_restart_free_halts(m, fuel);
        }
    }
}

/// Once a bounded run has finished or failed, a larger budget changes
/// nothing: `run_n` is absorbing after `Done` and `Failed`.
pub proof fn lemma_run_n_extends(m: Machine, n: nat, k: nat)
    requires
        n <= k,
        !(run_n(m, n) is Running),
    ensures
        run_n(m, k) == run_n(m, n),
    decreases n,
{
    if n == 0 {
        assert(false);
    } else {
        match step(m) {
            Outcome::Running(m2) => {
                lemma_run_n_extends(m2, (n - 1) as nat, (k - 1) as nat);
            },
            _ => {},
        }
    }
}

/// Every decimal literal whose value fits in an `i64` is a valid
/// program: it compiles to a single `Const` of its value, and running
/// that program terminates with exactly that value in the accumulator.
pub proof fn lemma_literal_program(s: Seq<u8>)
    requires
        s.len() > 0,
        forall|j: int| 0 <= j < s.len() ==> is_digit(#[trigger] s[j]),
        digits_val(s, s.len() as int) <= i64::MAX,
    ensures
        spec_compile(s) == Ok::<Seq<InsnV>, Diagnostic>(
            seq![InsnV::Const(digits_val(s, s.len() as int) as i64)],
        ),
        run_n(
            start(seq![InsnV::Const(digits_val(s, s.len() as int) as i64)], init_vm()),
            RUN_FUEL as nat,
        ) == Outcome::Done(
            VmState {
                stack: seq![0i64],
                tos: digits_val(s, s.len() as int) as i64,
                out: Seq::<i64>::empty(),
            },
        ),
{
    lemma_digits_end(s);
    lemma_digits_val_mono(s, 0, s.len() as int);
    let v = digits_val(s, s.len() as int) as i64;
    // The whole input is one digit run.
    assert(digits_end(s) == s.len()) by {
        if digits_end(s) < s.len() {
            assert(is_digit(s[digits_end(s) as int]));
        }
    }
    // A digit is not a space, nor the first byte of any keyword or
    // operator the grammar looks for.
    assert(!is_space(s[0]));
    assert(skip_spaces(s) == s);
    assert(!starts_with(s, kw_print())) by {
        if starts_with(s, kw_print()) {
            assert(s.take(5)[0] == s[0]);
        }
    }
    assert(!starts_with(s, kw_if())) by {
        if starts_with(s, kw_if()) {
            assert(s.take(2)[0] == s[0]);
        }
    }
    assert(!starts_with(s, seq![40u8])) by {
        if starts_with(s, seq![40u8]) {
            assert(s.take(1)[0] == s[0]);
        }
    }
    assert(!starts_with(s, seq![45u8])) by {
        if starts_with(s, seq![45u8]) {
            assert(s.take(1)[0] == s[0]);
        }
    }
    // The literal parses as a factor: a single Const, no input left.
    let e = Seq::<u8>::empty();
    assert(s.skip(s.len() as int) =~= e);
    assert(spec_parse_uint(s) == Ok::<(i64, Seq<u8>), Diagnostic>((v, e)));
    assert(spec_factor(s) == Ok::<(Seq<InsnV>, Seq<u8>), Diagnostic>((seq![InsnV::Const(v)], e)));
    // Nothing follows, so term, expression and statement add nothing.
    assert(seq![InsnV::Const(v)] + Seq::<InsnV>::empty() =~= seq![InsnV::Const(v)]);
    assert(spec_term(s) == Ok::<(Seq<InsnV>, Seq<u8>), Diagnostic>((seq![InsnV::Const(v)], e)));
    assert(spec_expr(s) == Ok::<(Seq<InsnV>, Seq<u8>), Diagnostic>((seq![InsnV::Const(v)], e)));
    assert(spec_stmt(s) == spec_expr(s));
    assert(spec_compile(s) == Ok::<Seq<InsnV>, Diagnostic>(seq![InsnV::Const(v)]));
    // Two machine steps: load the constant, fall off the end.
    let m0 = start(seq![InsnV::Const(v)], init_vm());
    let vm1 = VmState { stack: seq![0i64], tos: v, out: Seq::<i64>::empty() };
    let m1 = Machine { code: m0.code, pc: 1, frames: m0.frames, vm: vm1 };
    assert(step(m0) == Outcome::Running(m1)) by {
        assert(fetch(m0) == InsnV::Const(v));
        assert(init_vm().stack.push(0i64) =~= seq![0i64]);
        assert(step(m0) =~= Outcome::Running(m1));
    }
    assert(step(m1) == Outcome::Done(vm1)) by {
        assert(fetch(m1) == InsnV::Exit(0));
        assert(m1.frames.take(0) =~= Seq::<Frame>::empty());
    }
    assert(run_n(m0, 2) == Outcome::Done(vm1)) by {
        reveal_with_fuel(run_n, 3);
    }
    lemma_run_n_extends(m0, 2, RUN_FUEL as nat);
}

/// A successful compile is a function of the source text alone, so
/// compiling the same source twice yields structurally identical
/// instruction sequences.
pub proof fn lemma_compile_deterministic(s: Seq<u8>, a: Seq<Insn>, b: Seq<Insn>)
    requires
        spec_compile(s) is Ok,
        code_view(a) == spec_compile(s)->Ok_0,
        code_view(b) == spec_compile(s)->Ok_0,
    ensures
        code_view(a) == code_view(b),
{
}

} // verus!
