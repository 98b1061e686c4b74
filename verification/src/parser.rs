//! The recursive-descent parser/compiler.
//!
//! The grammar (precedence: unary `-`, then `*`, then binary `+`/`-`;
//! parentheses group):
//!
//! ```text
//! stmt    := "print" expr | "if" expr "then" stmt | expr
//! expr    := term (("+"|"-") term)*
//! term    := factor ("*" factor)*
//! factor  := "(" expr ")" | "-" factor | uint
//! ```
//!
//! The specification functions `spec_stmt` .. `spec_factor` give the
//! mathematical value of a parse: the instructions emitted for the
//! construct and the input left over, or the exact diagnostic.  Each
//! executable function is proved to return precisely that.  `if test
//! then body` compiles to one `Block` holding the compiled test, an
//! `ExitIfFalse(0)`, and the compiled body: the exit skips the body when
//! the test is false, with no jump target needed.

use vstd::prelude::*;

use crate::cursor::{after_token, skip_spaces, spec_parse_uint, starts_with, Cursor};
use crate::diag::Diagnostic;
use crate::insn::{code_view, lemma_code_view_push, Code, Insn, InsnV};

verus! {

/// What a parsing function yields: the instructions it emitted and the
/// input it left, or a diagnostic.
pub type Parsed = Result<(Seq<InsnV>, Seq<u8>), Diagnostic>;

/// The bytes of the keyword `print`.
pub open spec fn kw_print() -> Seq<u8> {
    seq![112u8, 114u8, 105u8, 110u8, 116u8]
}

/// The bytes of the keyword `if`.
pub open spec fn kw_if() -> Seq<u8> {
    seq![105u8, 102u8]
}

/// The bytes of the keyword `then`.
pub open spec fn kw_then() -> Seq<u8> {
    seq![116u8, 104u8, 101u8, 110u8]
}

/// The value of `factor := "(" expr ")" | "-" factor | uint`.
///
/// The `else` branches guarded by a length comparison are never taken —
/// matching a non-empty token always consumes input — but they make the
/// recursion measure evident from the definition alone.
pub open spec fn spec_factor(s: Seq<u8>) -> Parsed
    decreases s.len(), 0nat,
{
    if starts_with(s, seq![40u8]) {  // "("
        let s1 = after_token(s, seq![40u8]);
        if s1.len() < s.len() {
            match spec_expr(s1) {
                Ok(p) => if starts_with(p.1, seq![41u8]) {  // ")"
                    Ok((p.0, after_token(p.1, seq![41u8])))
                } else {
                    Err(Diagnostic::UnclosedParen)
                },
                Err(d) => Err(d),
            }
        } else {
            Err(Diagnostic::UnclosedParen)
        }
    } else if starts_with(s, seq![45u8]) {  // "-"
        let s1 = after_token(s, seq![45u8]);
        if s1.len() < s.len() {
            match spec_factor(s1) {
                Ok(p) => Ok((p.0.push(InsnV::Negate), p.1)),
                Err(d) => Err(d),
            }
        } else {
            Err(Diagnostic::ExpectedUint)
        }
    } else {
        match spec_parse_uint(s) {
            Ok(p) => Ok((seq![InsnV::Const(p.0)], p.1)),
            Err(d) => Err(d),
        }
    }
}

/// The value of the `("*" factor)*` chain after a first factor.
pub open spec fn spec_term_tail(s: Seq<u8>) -> Parsed
    decreases s.len(), 1nat,
{
    if starts_with(s, seq![42u8]) {  // "*"
        let s1 = after_token(s, seq![42u8]);
        if s1.len() < s.len() {
            match spec_factor(s1) {
                Ok(p) => if p.1.len() < s.len() {
                    match spec_term_tail(p.1) {
                        Ok(q) => Ok((p.0.push(InsnV::Mul) + q.0, q.1)),
                        Err(d) => Err(d),
                    }
                } else {
                    Err(Diagnostic::ExpectedUint)
                },
                Err(d) => Err(d),
            }
        } else {
            Err(Diagnostic::ExpectedUint)
        }
    } else {
        Ok((Seq::empty(), s))
    }
}

/// The value of `term := factor ("*" factor)*`.
pub open spec fn spec_term(s: Seq<u8>) -> Parsed
    decreases s.len(), 2nat,
{
    match spec_factor(s) {
        Ok(p) => if p.1.len() <= s.len() {
            match spec_term_tail(p.1) {
                Ok(q) => Ok((p.0 + q.0, q.1)),
                Err(d) => Err(d),
            }
        } else {
            Err(Diagnostic::ExpectedUint)
        },
        Err(d) => Err(d),
    }
}

/// The value of the `(("+"|"-") term)*` chain after a first term.
pub open spec fn spec_expr_tail(s: Seq<u8>) -> Parsed
    decreases s.len(), 3nat,
{
    if starts_with(s, seq![43u8]) {  // "+"
        let s1 = after_token(s, seq![43u8]);
        if s1.len() < s.len() {
            match spec_term(s1) {
                Ok(p) => if p.1.len() < s.len() {
                    match spec_expr_tail(p.1) {
                        Ok(q) => Ok((p.0.push(InsnV::Add) + q.0, q.1)),
                        Err(d) => Err(d),
                    }
                } else {
                    Err(Diagnostic::ExpectedUint)
                },
                Err(d) => Err(d),
            }
        } else {
            Err(Diagnostic::ExpectedUint)
        }
    } else if starts_with(s, seq![45u8]) {  // "-"
        let s1 = after_token(s, seq![45u8]);
        if s1.len() < s.len() {
            match spec_term(s1) {
                Ok(p) => if p.1.len() < s.len() {
                    match spec_expr_tail(p.1) {
                        Ok(q) => Ok((p.0.push(InsnV::Sub) + q.0, q.1)),
                        Err(d) => Err(d),
                    }
                } else {
                    Err(Diagnostic::ExpectedUint)
                },
                Err(d) => Err(d),
            }
        } else {
            Err(Diagnostic::ExpectedUint)
        }
    } else {
        Ok((Seq::empty(), s))
    }
}

/// The value of `expr := term (("+"|"-") term)*`.
pub open spec fn spec_expr(s: Seq<u8>) -> Parsed
    decreases s.len(), 4nat,
{
    match spec_term(s) {
        Ok(p) => if p.1.len() <= s.len() {
            match spec_expr_tail(p.1) {
                Ok(q) => Ok((p.0 + q.0, q.1)),
                Err(d) => Err(d),
            }
        } else {
            Err(Diagnostic::ExpectedUint)
        },
        Err(d) => Err(d),
    }
}

/// The value of `stmt := "print" expr | "if" expr "then" stmt | expr`.
pub open spec fn spec_stmt(s: Seq<u8>) -> Parsed
    decreases s.len(), 5nat,
{
    if starts_with(s, kw_print()) {
        let s1 = after_token(s, kw_print());
        if s1.len() < s.len() {
            match spec_expr(s1) {
                Ok(p) => Ok((p.0.push(InsnV::Print), p.1)),
                Err(d) => Err(d),
            }
        } else {
            Err(Diagnostic::ExpectedUint)
        }
    } else if starts_with(s, kw_if()) {
        let s1 = after_token(s, kw_if());
        if s1.len() < s.len() {
            match spec_expr(s1) {
                Ok(p) => if starts_with(p.1, kw_then()) {
                    let s3 = after_token(p.1, kw_then());
                    if s3.len() < s.len() {
                        match spec_stmt(s3) {
                            Ok(q) => Ok(
                                (
                                    seq![
                                        InsnV::Block(
                                            p.0.push(InsnV::ExitIfFalse(0)) + q.0,
                                        ),
                                    ],
                                    q.1,
                                ),
                            ),
                            Err(d) => Err(d),
                        }
                    } else {
                        Err(Diagnostic::MissingThen)
                    }
                } else {
                    Err(Diagnostic::MissingThen)
                },
                Err(d) => Err(d),
            }
        } else {
            Err(Diagnostic::MissingThen)
        }
    } else {
        spec_expr(s)
    }
}

/// Compile one factor onto the end of `code`.
pub fn parse_factor(c: &mut Cursor<'_>, code: &mut Code) -> (r: Result<(), Diagnostic>)
    requires
        old(c).wf(),
    ensures
        final(c).wf(),
        final(c).src == old(c).src,
        old(c).pos <= final(c).pos,
        match spec_factor(old(c).rest()) {
            Ok(p) => r is Ok && code_view(final(code)@) == code_view(old(code)@) + p.0
                && final(c).rest() == p.1,
            Err(d) => r == Err::<(), Diagnostic>(d),
        },
    decreases old(c).src@.len() - old(c).pos, 0nat,
{
    let ghost s0 = old(c).rest();
    let ghost base = code_view(old(code)@);
    let t_open: [u8; 1] = [40u8];
    let t_close: [u8; 1] = [41u8];
    let t_minus: [u8; 1] = [45u8];
    proof {
        assert(t_open@ =~= seq![40u8]);
        assert(t_close@ =~= seq![41u8]);
        assert(t_minus@ =~= seq![45u8]);
    }
    if c.token_match(t_open.as_slice()) {
        proof {
            assert(c.rest().len() < s0.len());
        }
        match parse_expr(c, code) {
            Ok(()) => {
                if c.token_match(t_close.as_slice()) {
                    Ok(())
                } else {
                    Err(Diagnostic::UnclosedParen)
                }
            },
            Err(d) => Err(d),
        }
    } else if c.token_match(t_minus.as_slice()) {
        proof {
            assert(c.rest().len() < s0.len());
        }
        match parse_factor(c, code) {
            Ok(()) => {
                let ghost p = spec_factor(after_token(s0, seq![45u8]))->Ok_0;
                let ghost mid = code@;
                code.push(Insn::Negate);
                proof {
                    lemma_code_view_push(mid, Insn::Negate);
                    assert((base + p.0).push(InsnV::Negate) =~= base + p.0.push(InsnV::Negate));
                }
                Ok(())
            },
            Err(d) => Err(d),
        }
    } else {
        match c.parse_uint() {
            Ok(v) => {
                let ghost mid = code@;
                code.push(Insn::Const(v));
                proof {
                    lemma_code_view_push(mid, Insn::Const(v));
                    assert(base.push(InsnV::Const(v)) =~= base + seq![InsnV::Const(v)]);
                }
                Ok(())
            },
            Err(d) => Err(d),
        }
    }
}

/// Compile one term (a factor and its `*` chain) onto the end of
/// `code`.
pub fn parse_term(c: &mut Cursor<'_>, code: &mut Code) -> (r: Result<(), Diagnostic>)
    requires
        old(c).wf(),
    ensures
        final(c).wf(),
        final(c).src == old(c).src,
        old(c).pos <= final(c).pos,
        match spec_term(old(c).rest()) {
            Ok(p) => r is Ok && code_view(final(code)@) == code_view(old(code)@) + p.0
                && final(c).rest() == p.1,
            Err(d) => r == Err::<(), Diagnostic>(d),
        },
    decreases old(c).src@.len() - old(c).pos, 2nat,
{
    let ghost s0 = old(c).rest();
    let ghost base = code_view(old(code)@);
    match parse_factor(c, code) {
        Ok(()) => {},
        Err(d) => {
            return Err(d);
        },
    }
    let ghost mut emitted = spec_factor(s0)->Ok_0.0;
    loop
        invariant
            c.wf(),
            c.src == old(c).src,
            old(c).pos <= c.pos,
            s0 == old(c).rest(),
            base == code_view(old(code)@),
            code_view(code@) == base + emitted,
            match spec_term_tail(c.rest()) {
                Ok(q) => spec_term(s0) == Ok::<(Seq<InsnV>, Seq<u8>), Diagnostic>(
                    (emitted + q.0, q.1),
                ),
                Err(d) => spec_term(s0) == Err::<(Seq<InsnV>, Seq<u8>), Diagnostic>(d),
            },
        decreases c.src@.len() - c.pos,
    {
        let t_star: [u8; 1] = [42u8];
        proof {
            assert(t_star@ =~= seq![42u8]);
        }
        let ghost s_iter = c.rest();
        if !c.token_match(t_star.as_slice()) {
            proof {
                assert(emitted + Seq::<InsnV>::empty() =~= emitted);
            }
            return Ok(());
        }
        proof {
            assert(c.rest().len() < s_iter.len());
        }
        match parse_factor(c, code) {
            Ok(()) => {},
            Err(d) => {
                return Err(d);
            },
        }
        let ghost p = spec_factor(after_token(s_iter, seq![42u8]))->Ok_0;
        let ghost mid = code@;
        code.push(Insn::Mul);
        proof {
            lemma_code_view_push(mid, Insn::Mul);
            assert(((base + emitted) + p.0).push(InsnV::Mul) =~= base + (emitted + p.0.push(
                InsnV::Mul,
            )));
            if spec_term_tail(c.rest()) is Ok {
                let q2 = spec_term_tail(c.rest())->Ok_0;
                assert(emitted + (p.0.push(InsnV::Mul) + q2.0) =~= (emitted + p.0.push(
                    InsnV::Mul,
                )) + q2.0);
            }
            emitted = emitted + p.0.push(InsnV::Mul);
        }
    }
}

/// Compile one expression (a term and its `+`/`-` chain) onto the end
/// of `code`.
pub fn parse_expr(c: &mut Cursor<'_>, code: &mut Code) -> (r: Result<(), Diagnostic>)
    requires
        old(c).wf(),
    ensures
        final(c).wf(),
        final(c).src == old(c).src,
        old(c).pos <= final(c).pos,
        match spec_expr(old(c).rest()) {
            Ok(p) => r is Ok && code_view(final(code)@) == code_view(old(code)@) + p.0
                && final(c).rest() == p.1,
            Err(d) => r == Err::<(), Diagnostic>(d),
        },
    decreases old(c).src@.len() - old(c).pos, 4nat,
{
    let ghost s0 = old(c).rest();
    let ghost base = code_view(old(code)@);
    match parse_term(c, code) {
        Ok(()) => {},
        Err(d) => {
            return Err(d);
        },
    }
    let ghost mut emitted = spec_term(s0)->Ok_0.0;
    loop
        invariant
            c.wf(),
            c.src == old(c).src,
            old(c).pos <= c.pos,
            s0 == old(c).rest(),
            base == code_view(old(code)@),
            code_view(code@) == base + emitted,
            match spec_expr_tail(c.rest()) {
                Ok(q) => spec_expr(s0) == Ok::<(Seq<InsnV>, Seq<u8>), Diagnostic>(
                    (emitted + q.0, q.1),
                ),
                Err(d) => spec_expr(s0) == Err::<(Seq<InsnV>, Seq<u8>), Diagnostic>(d),
            },
        decreases c.src@.len() - c.pos,
    {
        let t_plus: [u8; 1] = [43u8];
        let t_minus: [u8; 1] = [45u8];
        proof {
            assert(t_plus@ =~= seq![43u8]);
            assert(t_minus@ =~= seq![45u8]);
        }
        let ghost s_iter = c.rest();
        if c.token_match(t_plus.as_slice()) {
            proof {
                assert(c.rest().len() < s_iter.len());
            }
            match parse_term(c, code) {
                Ok(()) => {},
                Err(d) => {
                    return Err(d);
                },
            }
            let ghost p = spec_term(after_token(s_iter, seq![43u8]))->Ok_0;
            let ghost mid = code@;
            code.push(Insn::Add);
            proof {
                lemma_code_view_push(mid, Insn::Add);
                assert(((base + emitted) + p.0).push(InsnV::Add) =~= base + (emitted + p.0.push(
                    InsnV::Add,
                )));
                if spec_expr_tail(c.rest()) is Ok {
                    let q2 = spec_expr_tail(c.rest())->Ok_0;
                    assert(emitted + (p.0.push(InsnV::Add) + q2.0) =~= (emitted + p.0.push(
                        InsnV::Add,
                    )) + q2.0);
                }
                emitted = emitted + p.0.push(InsnV::Add);
            }
        } else if c.token_match(t_minus.as_slice()) {
            proof {
                assert(c.rest().len() < s_iter.len());
            }
            match parse_term(c, code) {
                Ok(()) => {},
                Err(d) => {
                    return Err(d);
                },
            }
            let ghost p = spec_term(after_token(s_iter, seq![45u8]))->Ok_0;
            let ghost mid = code@;
            code.push(Insn::Sub);
            proof {
                lemma_code_view_push(mid, Insn::Sub);
                assert(((base + emitted) + p.0).push(InsnV::Sub) =~= base + (emitted + p.0.push(
                    InsnV::Sub,
                )));
                if spec_expr_tail(c.rest()) is Ok {
                    let q2 = spec_expr_tail(c.rest())->Ok_0;
                    assert(emitted + (p.0.push(InsnV::Sub) + q2.0) =~= (emitted + p.0.push(
                        InsnV::Sub,
                    )) + q2.0);
                }
                emitted = emitted + p.0.push(InsnV::Sub);
            }
        } else {
            proof {
                assert(emitted + Seq::<InsnV>::empty() =~= emitted);
            }
            return Ok(());
        }
    }
}

/// Compile one statement onto the end of `code`.
pub fn parse_stmt(c: &mut Cursor<'_>, code: &mut Code) -> (r: Result<(), Diagnostic>)
    requires
        old(c).wf(),
    ensures
        final(c).wf(),
        final(c).src == old(c).src,
        old(c).pos <= final(c).pos,
        match spec_stmt(old(c).rest()) {
            Ok(p) => r is Ok && code_view(final(code)@) == code_view(old(code)@) + p.0
                && final(c).rest() == p.1,
            Err(d) => r == Err::<(), Diagnostic>(d),
        },
    decreases old(c).src@.len() - old(c).pos, 5nat,
{
    let ghost s0 = old(c).rest();
    let ghost base = code_view(old(code)@);
    let kw_p: [u8; 5] = [112u8, 114u8, 105u8, 110u8, 116u8];
    let kw_i: [u8; 2] = [105u8, 102u8];
    let kw_t: [u8; 4] = [116u8, 104u8, 101u8, 110u8];
    proof {
        assert(kw_p@ =~= kw_print());
        assert(kw_i@ =~= kw_if());
        assert(kw_t@ =~= kw_then());
    }
    if c.token_match(kw_p.as_slice()) {
        proof {
            assert(c.rest().len() < s0.len());
        }
        match parse_expr(c, code) {
            Ok(()) => {
                let ghost p = spec_expr(after_token(s0, kw_print()))->Ok_0;
                let ghost mid = code@;
                code.push(Insn::Print);
                proof {
                    lemma_code_view_push(mid, Insn::Print);
                    assert((base + p.0).push(InsnV::Print) =~= base + p.0.push(InsnV::Print));
                }
                Ok(())
            },
            Err(d) => Err(d),
        }
    } else if c.token_match(kw_i.as_slice()) {
        proof {
            assert(c.rest().len() < s0.len());
        }
        let mut block: Code = Vec::new();
        match parse_expr(c, &mut block) {
            Ok(()) => {},
            Err(d) => {
                return Err(d);
            },
        }
        let ghost p = spec_expr(after_token(s0, kw_if()))->Ok_0;
        let ghost mid1 = block@;
        block.push(Insn::ExitIfFalse(0));
        proof {
            lemma_code_view_push(mid1, Insn::ExitIfFalse(0));
            assert(Seq::<InsnV>::empty() + p.0 =~= p.0);
        }
        if !c.token_match(kw_t.as_slice()) {
            return Err(Diagnostic::MissingThen);
        }
        match parse_stmt(c, &mut block) {
            Ok(()) => {},
            Err(d) => {
                return Err(d);
            },
        }
        let ghost q = spec_stmt(after_token(p.1, kw_then()))->Ok_0;
        proof {
            assert(code_view(block@) =~= p.0.push(InsnV::ExitIfFalse(0)) + q.0);
        }
        let ghost blk = block@;
        let ghost mid2 = code@;
        code.push(Insn::Block(block));
        proof {
            lemma_code_view_push(mid2, Insn::Block(code@.last()->Block_0));
            assert(code@ == mid2.push(Insn::Block(code@.last()->Block_0)));
            assert(base.push(InsnV::Block(code_view(blk))) =~= base + seq![
                InsnV::Block(p.0.push(InsnV::ExitIfFalse(0)) + q.0),
            ]);
        }
        Ok(())
    } else {
        parse_expr(c, code)
    }
}

/// Compile a whole program: one statement that must consume all of the
/// input; anything left over is junk and fails the compile.
pub fn parse(c: &mut Cursor<'_>, code: &mut Code) -> (r: Result<(), Diagnostic>)
    requires
        old(c).wf(),
    ensures
        final(c).wf(),
        final(c).src == old(c).src,
        old(c).pos <= final(c).pos,
        match spec_parse(old(c).rest()) {
            Ok(p) => r is Ok && code_view(final(code)@) == code_view(old(code)@) + p.0,
            Err(d) => r == Err::<(), Diagnostic>(d),
        },
{
    match parse_stmt(c, code) {
        Ok(()) => {
            if c.at_end() {
                Ok(())
            } else {
                Err(Diagnostic::JunkAtEnd)
            }
        },
        Err(d) => Err(d),
    }
}

/// The value of a whole program: a statement that must consume all of
/// the input, anything left over being junk.
pub open spec fn spec_parse(s: Seq<u8>) -> Parsed {
    match spec_stmt(s) {
        Ok(p) => if p.1.len() == 0 {
            Ok(p)
        } else {
            Err(Diagnostic::JunkAtEnd)
        },
        Err(d) => Err(d),
    }
}

/// What compiling a whole source text yields: leading whitespace is
/// tolerated, and a complete statement must consume everything else.
pub open spec fn spec_compile(s: Seq<u8>) -> Result<Seq<InsnV>, Diagnostic> {
    match spec_parse(skip_spaces(s)) {
        Ok(p) => Ok(p.0),
        Err(d) => Err(d),
    }
}

/// What compiling a source text as a bare expression yields; input
/// beyond the expression is left unread.
pub open spec fn spec_compile_expr(s: Seq<u8>) -> Result<Seq<InsnV>, Diagnostic> {
    match spec_expr(skip_spaces(s)) {
        Ok(p) => Ok(p.0),
        Err(d) => Err(d),
    }
}

} // verus!
