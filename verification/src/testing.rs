//! Small helpers for building lines in tests by hand.
use vstd::prelude::*;

verus! {

use crate::Line;
use crate::Whitespace;
use crate::parse::is_digit;

/// Conveniences on [Line] for tests.
pub trait LineExtension: Sized {
    /// The same line without its trailing newline flag.
    spec fn spec_trimmed(self) -> Self;

    /// Drops the trailing newline flag.
    fn trimmed(self) -> (r: Self)
        ensures
            r == self.spec_trimmed(),
    ;
}

impl LineExtension for Line {
    open spec fn spec_trimmed(self) -> Self {
        Line { newline: false, ..self }
    }

    fn trimmed(self) -> Self {
        Self { newline: false, ..self }
    }
}

/// The number denoted by a sequence of ASCII decimal digits.
pub open spec fn digits_val(s: Seq<char>) -> int
    decreases s.len(),
{
    if s.len() == 0 {
        0
    } else {
        digits_val(s.drop_last()) * 10 + ((s.last() as u32) - 48)
    }
}

/// A digit string's value only grows as digits are appended.
proof fn lemma_digits_prefix(s: Seq<char>, k: int)
    requires
        0 <= k <= s.len(),
        forall|i: int| 0 <= i < s.len() ==> is_digit(#[trigger] s[i]),
    ensures
        0 <= digits_val(s.take(k)) <= digits_val(s),
    decreases s.len() - k,
{
    if k == s.len() {
        assert(s.take(k) =~= s);
        lemma_digits_nonneg(s);
    } else {
        lemma_digits_prefix(s, k + 1);
        let t = s.take(k + 1);
        assert(t.drop_last() =~= s.take(k));
        assert(t.last() == s[k]);
        lemma_digits_nonneg(s.take(k));
        assert(digits_val(s.take(k)) * 10 >= digits_val(s.take(k))) by (nonlinear_arith)
            requires
                digits_val(s.take(k)) >= 0,
        ;
    }
}

proof fn lemma_digits_nonneg(s: Seq<char>)
    requires
        forall|i: int| 0 <= i < s.len() ==> is_digit(#[trigger] s[i]),
    ensures
        digits_val(s) >= 0,
    decreases s.len(),
{
    if s.len() > 0 {
        assert(s.drop_last() =~= s.take(s.len() - 1));
        assert(forall|i: int|
            0 <= i < s.drop_last().len() ==> is_digit(#[trigger] s.drop_last()[i]));
        lemma_digits_nonneg(s.drop_last());
        assert(digits_val(s.drop_last()) * 10 >= 0) by (nonlinear_arith)
            requires
                digits_val(s.drop_last()) >= 0,
        ;
    }
}

/// The whitespace run a compact notation denotes: the letter `s` or `t`
/// followed by a repetition count, e.g. `s4` or `t2`.
pub fn whitespace_notation(pattern: &str) -> (r: Whitespace)
    requires
        pattern@.len() >= 2,
        pattern@[0] == 's' || pattern@[0] == 't',
        forall|i: int| 1 <= i < pattern@.len() ==> is_digit(#[trigger] pattern@[i]),
        digits_val(pattern@.skip(1)) <= usize::MAX,
    ensures
        r == if pattern@[0] == 's' {
            Whitespace::Space(digits_val(pattern@.skip(1)) as usize)
        } else {
            Whitespace::Tab(digits_val(pattern@.skip(1)) as usize)
        },
{
    let ghost digits = pattern@.skip(1);
    proof {
        assert(forall|i: int| 0 <= i < digits.len() ==> is_digit(#[trigger] digits[i]));
    }
    let n = pattern.unicode_len();
    let mut count: usize = 0;
    let mut i: usize = 1;
    proof {
        assert(digits.take(0) =~= Seq::<char>::empty());
    }
    while i < n
        invariant
            1 <= i <= n,
            n == pattern@.len(),
            count == digits_val(digits.take(i - 1)),
        decreases n - i,
    {
        let c = pattern.get_char(i);
        let d = (c as u32) - 48;
        proof {
            lemma_digits_prefix(digits, i as int);
            assert(digits.take(i as int).drop_last() =~= digits.take(i - 1));
            assert(digits.take(i as int).last() == digits[i - 1]);
            assert(digits[i - 1] == pattern@[i as int]);
            lemma_digits_nonneg(digits.take(i - 1));
        }
        count = count * 10 + (d as usize);
        i = i + 1;
    }
    proof {
        assert(digits.take(n - 1) =~= digits);
    }
    let first = pattern.get_char(0);
    if first == 's' {
        Whitespace::Space(count)
    } else {
        Whitespace::Tab(count)
    }
}

} // verus!
