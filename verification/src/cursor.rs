//! The source cursor: a read-only, position-advancing view over the
//! source bytes, together with the specification functions that describe
//! exactly which bytes each operation consumes.

use vstd::prelude::*;

use crate::diag::Diagnostic;

verus! {

/// The one whitespace byte the language knows.
pub open spec fn is_space(b: u8) -> bool {
    b == 32
}

/// An ASCII decimal digit.
pub open spec fn is_digit(b: u8) -> bool {
    48 <= b <= 57
}

/// The input with its leading spaces removed.
pub open spec fn skip_spaces(s: Seq<u8>) -> Seq<u8>
    decreases s.len(),
{
    if s.len() > 0 && is_space(s[0]) {
        skip_spaces(s.drop_first())
    } else {
        s
    }
}

/// `skip_spaces` yields a suffix: it removes some prefix of the input
/// and its result starts with a non-space (or is empty).
pub proof fn lemma_skip_spaces(s: Seq<u8>)
    ensures
        skip_spaces(s).len() <= s.len(),
        skip_spaces(s) == s.skip(s.len() - skip_spaces(s).len()),
        skip_spaces(s).len() > 0 ==> !is_space(skip_spaces(s)[0]),
    decreases s.len(),
{
    if s.len() > 0 && is_space(s[0]) {
        lemma_skip_spaces(s.drop_first());
        assert(s.drop_first() == s.skip(1));
        let k = s.len() - skip_spaces(s).len();
        assert(s.skip(1).skip(k - 1) =~= s.skip(k));
    } else {
        assert(s.skip(0) == s);
    }
}

/// Skipping whitespace twice is the same as skipping it once:
/// `skip_whitespace` is idempotent.
pub proof fn lemma_skip_spaces_idempotent(s: Seq<u8>)
    ensures
        skip_spaces(skip_spaces(s)) == skip_spaces(s),
{
    lemma_skip_spaces(s);
}

/// Whether the input begins with the given byte sequence.
pub open spec fn starts_with(s: Seq<u8>, p: Seq<u8>) -> bool {
    p.len() <= s.len() && s.take(p.len() as int) == p
}

/// The input after a successful `token_match` of `p`: the token and the
/// whitespace beyond it are gone.
pub open spec fn after_token(s: Seq<u8>, p: Seq<u8>) -> Seq<u8> {
    skip_spaces(s.skip(p.len() as int))
}

/// The length of the maximal digit run at the head of the input.
pub open spec fn digits_end(s: Seq<u8>) -> nat
    decreases s.len(),
{
    if s.len() > 0 && is_digit(s[0]) {
        1 + digits_end(s.drop_first())
    } else {
        0
    }
}

/// The numeric value of the first `n` digits of the input.
pub open spec fn digits_val(s: Seq<u8>, n: int) -> int
    decreases n,
{
    if n <= 0 {
        0
    } else {
        digits_val(s, n - 1) * 10 + (s[n - 1] - 48)
    }
}

/// `digits_end` marks the first position that is not a digit, and
/// everything before it is one.
pub proof fn lemma_digits_end(s: Seq<u8>)
    ensures
        digits_end(s) <= s.len(),
        forall|j: int| 0 <= j < digits_end(s) ==> is_digit(#[trigger] s[j]),
        digits_end(s) < s.len() ==> !is_digit(s[digits_end(s) as int]),
    decreases s.len(),
{
    if s.len() > 0 && is_digit(s[0]) {
        lemma_digits_end(s.drop_first());
        let t = s.drop_first();
        assert forall|j: int| 0 <= j < digits_end(s) implies is_digit(#[trigger] s[j]) by {
            if j > 0 {
                assert(is_digit(t[j - 1]));
            }
        }
        if digits_end(s) < s.len() {
            assert(s[digits_end(s) as int] == t[digits_end(t) as int]);
        }
    }
}

/// The value of a run of digits is never negative.
pub proof fn lemma_digits_val_nonneg(s: Seq<u8>, n: int)
    requires
        forall|j: int| 0 <= j < n ==> is_digit(#[trigger] s[j]),
    ensures
        0 <= digits_val(s, n),
    decreases n,
{
    if n > 0 {
        lemma_digits_val_nonneg(s, n - 1);
        assert(digits_val(s, n - 1) * 10 >= 0) by (nonlinear_arith)
            requires digits_val(s, n - 1) >= 0;
    }
}

/// The value of a run of digits grows (weakly) with each further digit
/// taken in.
pub proof fn lemma_digits_val_mono(s: Seq<u8>, n: int, m: int)
    requires
        0 <= n <= m,
        forall|j: int| 0 <= j < m ==> is_digit(#[trigger] s[j]),
    ensures
        0 <= digits_val(s, n) <= digits_val(s, m),
    decreases m - n,
{
    lemma_digits_val_nonneg(s, n);
    if n < m {
        lemma_digits_val_mono(s, n, m - 1);
        assert(digits_val(s, m - 1) * 10 >= digits_val(s, m - 1)) by (nonlinear_arith)
            requires digits_val(s, m - 1) >= 0;
    }
}

/// A read-only cursor over the source bytes: the slice never changes,
/// only the position advances.
pub struct Cursor<'a> {
    /// The whole source text.
    pub src: &'a [u8],
    /// How many bytes have been consumed.
    pub pos: usize,
}

impl<'a> Cursor<'a> {
    /// The position never runs past the end of the source.
    pub open spec fn wf(&self) -> bool {
        self.pos <= self.src@.len()
    }

    /// The input that remains to be consumed.
    pub open spec fn rest(&self) -> Seq<u8> {
        self.src@.skip(self.pos as int)
    }

    /// A cursor at the start of the given source.
    pub fn new(src: &'a [u8]) -> (c: Cursor<'a>)
        ensures
            c.wf(),
            c.src == src,
            c.rest() == src@,
    {
        let c = Cursor { src, pos: 0 };
        proof {
            assert(c.rest() =~= src@);
        }
        c
    }

    /// Whether all input has been consumed.
    pub fn at_end(&self) -> (r: bool)
        requires
            self.wf(),
        ensures
            r == (self.rest().len() == 0),
    {
        self.pos == self.src.len()
    }

    /// Advance past space bytes; idempotent.
    pub fn skip_whitespace(&mut self)
        requires
            old(self).wf(),
        ensures
            final(self).wf(),
            final(self).src == old(self).src,
            old(self).pos <= final(self).pos,
            final(self).rest() == skip_spaces(old(self).rest()),
    {
        while self.pos < self.src.len() && self.src[self.pos] == 32u8
            invariant
                self.wf(),
                self.src == old(self).src,
                old(self).pos <= self.pos,
                skip_spaces(self.rest()) == skip_spaces(old(self).rest()),
            decreases self.src@.len() - self.pos,
        {
            proof {
                let r = self.rest();
                assert(r[0] == self.src@[self.pos as int]);
                assert(r.drop_first() =~= self.src@.skip(self.pos + 1));
            }
            self.pos = self.pos + 1;
        }
        proof {
            if self.pos < self.src@.len() {
                assert(self.rest()[0] == self.src@[self.pos as int]);
            }
        }
    }

    /// If the remaining input starts with `expected`, advance past it and
    /// the whitespace beyond and report success; otherwise leave the
    /// cursor untouched.  This is the grammar's sole lookahead mechanism.
    pub fn token_match(&mut self, expected: &[u8]) -> (r: bool)
        requires
            old(self).wf(),
        ensures
            final(self).wf(),
            final(self).src == old(self).src,
            old(self).pos <= final(self).pos,
            r == starts_with(old(self).rest(), expected@),
            r ==> final(self).rest() == after_token(old(self).rest(), expected@)
                && old(self).pos + expected@.len() <= final(self).pos,
            !r ==> *final(self) == *old(self),
    {
        if self.src.len() - self.pos < expected.len() {
            proof {
                assert(!starts_with(old(self).rest(), expected@));
            }
            return false;
        }
        let mut i: usize = 0;
        while i < expected.len()
            invariant
                self == old(self),
                self.wf(),
                i <= expected@.len(),
                expected@.len() <= self.src@.len() - self.pos,
                self.src@.len() <= usize::MAX,
                forall|j: int| 0 <= j < i ==> self.rest()[j] == expected@[j],
            decreases expected@.len() - i,
        {
            if self.src[self.pos + i] != expected[i] {
                proof {
                    assert(old(self).rest()[i as int] == self.src@[self.pos + i]);
                    assert(old(self).rest().take(expected@.len() as int)[i as int]
                        != expected@[i as int]);
                }
                return false;
            }
            proof {
                assert(old(self).rest()[i as int] == self.src@[self.pos + i]);
            }
            i = i + 1;
        }
        proof {
            assert(old(self).rest().take(expected@.len() as int) =~= expected@);
        }
        self.pos = self.pos + expected.len();
        proof {
            assert(self.rest() =~= old(self).rest().skip(expected@.len() as int));
        }
        self.skip_whitespace();
        true
    }

    /// Scan a maximal digit run and return its value, or a diagnostic if
    /// no digit is present or the value does not fit in an `i64`.
    /// Trailing whitespace is consumed after a successful scan.
    pub fn parse_uint(&mut self) -> (r: Result<i64, Diagnostic>)
        requires
            old(self).wf(),
        ensures
            final(self).wf(),
            final(self).src == old(self).src,
            old(self).pos <= final(self).pos,
            match spec_parse_uint(old(self).rest()) {
                Ok(p) => r == Ok::<i64, Diagnostic>(p.0) && final(self).rest() == p.1,
                Err(d) => r == Err::<i64, Diagnostic>(d),
            },
    {
        proof {
            lemma_digits_end(old(self).rest());
        }
        if self.pos == self.src.len() || self.src[self.pos] < 48u8 || self.src[self.pos] > 57u8 {
            proof {
                if old(self).rest().len() > 0 {
                    assert(old(self).rest()[0] == self.src@[self.pos as int]);
                }
            }
            return Err(Diagnostic::ExpectedUint);
        }
        let ghost s0 = old(self).rest();
        let ghost p0 = self.pos as int;
        let ghost nd = digits_end(s0);
        let mut v: i64 = 0;
        proof {
            assert(s0[0] == self.src@[p0]);
        }
        while self.pos < self.src.len() && 48u8 <= self.src[self.pos] && self.src[self.pos] <= 57u8
            invariant
                self.wf(),
                self.src == old(self).src,
                s0 == old(self).rest(),
                p0 == old(self).pos as int,
                nd == digits_end(s0),
                p0 <= self.pos as int <= p0 + nd,
                v == digits_val(s0, self.pos - p0),
                0 <= digits_val(s0, self.pos - p0),
                forall|j: int| 0 <= j < nd ==> is_digit(#[trigger] s0[j]),
                nd <= s0.len(),
                nd < s0.len() ==> !is_digit(s0[nd as int]),
            decreases self.src@.len() - self.pos,
        {
            let d: i64 = (self.src[self.pos] - 48u8) as i64;
            let ghost k = self.pos - p0;
            proof {
                assert(s0[k] == self.src@[self.pos as int]);
                assert(k < nd) by {
                    if k >= nd {
                        assert(!is_digit(s0[nd as int]));
                    }
                }
            }
            if v > (i64::MAX - d) / 10 {
                proof {
                    assert(digits_val(s0, k + 1) == v * 10 + (s0[k] - 48));
                    assert(v * 10 + d > i64::MAX) by (nonlinear_arith)
                        requires
                            v > (i64::MAX - d) / 10,
                            0 <= d <= 9,
                            v >= 0;
                    lemma_digits_val_mono(s0, k + 1, nd as int);
                }
                return Err(Diagnostic::NumberTooLarge);
            }
            proof {
                assert(v * 10 + d <= i64::MAX) by (nonlinear_arith)
                    requires
                        v <= (i64::MAX - d) / 10,
                        0 <= d <= 9,
                        v >= 0;
                assert(v * 10 >= v) by (nonlinear_arith)
                    requires v >= 0;
            }
            v = v * 10 + d;
            self.pos = self.pos + 1;
        }
        proof {
            let k = self.pos - p0;
            assert(k == nd) by {
                if k < nd {
                    assert(is_digit(s0[k]));
                    assert(s0[k] == self.src@[self.pos as int]);
                }
            }
            lemma_digits_val_mono(s0, nd as int, nd as int);
            assert(self.rest() =~= s0.skip(nd as int));
        }
        self.skip_whitespace();
        Ok(v)
    }
}

/// What `Cursor::parse_uint` yields on the given remaining input: the
/// value of the maximal leading digit run and the input beyond it (and
/// the whitespace that follows), or the exact diagnostic.
pub open spec fn spec_parse_uint(s: Seq<u8>) -> Result<(i64, Seq<u8>), Diagnostic> {
    if s.len() == 0 || !is_digit(s[0]) {
        Err(Diagnostic::ExpectedUint)
    } else if digits_val(s, digits_end(s) as int) > i64::MAX {
        Err(Diagnostic::NumberTooLarge)
    } else {
        Ok((digits_val(s, digits_end(s) as int) as i64, skip_spaces(s.skip(digits_end(s) as int))))
    }
}

} // verus!
