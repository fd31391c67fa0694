//! The naming sequencer: a monotonically increasing counter that turns each
//! tagging step into a deterministic, human-readable name.
//!
//! The first name handed out is `"Original Barry"`; the call made when the
//! counter stands at `n > 0` hands out `"Barry n"` with `n` written in
//! decimal. No two calls ever observe the same counter value, so no name is
//! ever repeated and none is skipped.

use vstd::prelude::*;
use vstd::string::StringExecFns;

verus! {

/// The character for a single decimal digit.
pub open spec fn digit_char(d: int) -> char {
    if d == 0 {
        '0'
    } else if d == 1 {
        '1'
    } else if d == 2 {
        '2'
    } else if d == 3 {
        '3'
    } else if d == 4 {
        '4'
    } else if d == 5 {
        '5'
    } else if d == 6 {
        '6'
    } else if d == 7 {
        '7'
    } else if d == 8 {
        '8'
    } else {
        '9'
    }
}

/// The decimal rendering of `n`, most significant digit first, with no
/// leading zeros (except for `n == 0`, rendered as `"0"`).
pub open spec fn dec_digits(n: int) -> Seq<char>
    decreases n,
{
    if n < 10 {
        seq![digit_char(n)]
    } else {
        dec_digits(n / 10).push(digit_char(n % 10))
    }
}

/// The name produced by the call that observes counter value `n`.
pub open spec fn spec_name(n: int) -> Seq<char> {
    if n == 0 {
        "Original Barry"@
    } else {
        "Barry "@ + dec_digits(n)
    }
}

/// The one-character string for a single decimal digit.
fn digit_str(d: u64) -> (s: &'static str)
    requires
        d < 10,
    ensures
        s@ == seq![digit_char(d as int)],
{
    proof {
        reveal_strlit("0");
        reveal_strlit("1");
        reveal_strlit("2");
        reveal_strlit("3");
        reveal_strlit("4");
        reveal_strlit("5");
        reveal_strlit("6");
        reveal_strlit("7");
        reveal_strlit("8");
        reveal_strlit("9");
    }
    if d == 0 {
        "0"
    } else if d == 1 {
        "1"
    } else if d == 2 {
        "2"
    } else if d == 3 {
        "3"
    } else if d == 4 {
        "4"
    } else if d == 5 {
        "5"
    } else if d == 6 {
        "6"
    } else if d == 7 {
        "7"
    } else if d == 8 {
        "8"
    } else {
        "9"
    }
}

/// Append the decimal rendering of `n` to `out`.
fn push_digits(n: u64, out: &mut String)
    ensures
        final(out)@ == old(out)@ + dec_digits(n as int),
    decreases n,
{
    if n < 10 {
        out.append(digit_str(n));
    } else {
        push_digits(n / 10, out);
        out.append(digit_str(n % 10));
    }
}

/// A process-wide counter handing out one fresh name per tagging step.
pub struct NamingSequencer {
    counter: u64,
}

impl View for NamingSequencer {
    type V = nat;

    closed spec fn view(&self) -> nat {
        self.counter as nat
    }
}

impl NamingSequencer {
    /// A fresh sequencer, with no names handed out yet.
    pub fn new() -> (s: Self)
        ensures
            s@ == 0,
    {
        NamingSequencer { counter: 0 }
    }

    /// How many names have been handed out so far.
    pub fn count(&self) -> (c: u64)
        ensures
            c as nat == self@,
    {
        self.counter
    }

    /// Hand out the next name and advance the counter by exactly one, as a
    /// single indivisible step.
    pub fn next_name(&mut self) -> (name: String)
        requires
            old(self)@ < u64::MAX,
        ensures
            final(self)@ == old(self)@ + 1,
            name@ == spec_name(old(self)@ as int),
    {
        let name: String = if self.counter == 0 {
            String::from_str("Original Barry")
        } else {
            let mut s = String::from_str("Barry ");
            push_digits(self.counter, &mut s);
            s
        };
        self.counter = self.counter + 1;
        name
    }
}

/// No two decimal digits render as the same character.
proof fn lemma_digit_char_injective(d1: int, d2: int)
    requires
        0 <= d1 < 10,
        0 <= d2 < 10,
        d1 != d2,
    ensures
        digit_char(d1) != digit_char(d2),
{
}

/// Distinct non-negative integers have distinct decimal renderings.
proof fn lemma_dec_digits_injective(i: int, j: int)
    requires
        0 <= i,
        0 <= j,
        i != j,
    ensures
        dec_digits(i) != dec_digits(j),
    decreases i + j,
{
    if i < 10 && j < 10 {
        lemma_digit_char_injective(i, j);
        if dec_digits(i) == dec_digits(j) {
            assert(dec_digits(i)[0] == dec_digits(j)[0]);
        }
    } else if i < 10 {
        assert(dec_digits(j).len() == dec_digits(j / 10).len() + 1);
        assert(dec_digits(i).len() == 1);
        assert(dec_digits(j / 10).len() >= 1) by {
            lemma_dec_digits_len(j / 10);
        }
    } else if j < 10 {
        assert(dec_digits(i).len() == dec_digits(i / 10).len() + 1);
        assert(dec_digits(j).len() == 1);
        assert(dec_digits(i / 10).len() >= 1) by {
            lemma_dec_digits_len(i / 10);
        }
    } else {
        if dec_digits(i) == dec_digits(j) {
            assert(dec_digits(i).last() == dec_digits(j).last());
            assert(digit_char(i % 10) == digit_char(j % 10));
            if i % 10 != j % 10 {
                lemma_digit_char_injective(i % 10, j % 10);
                assert(false);
            }
            assert(dec_digits(i / 10) =~= dec_digits(i).drop_last());
            assert(dec_digits(j / 10) =~= dec_digits(j).drop_last());
            if i / 10 == j / 10 {
                assert(i == (i / 10) * 10 + i % 10);
                assert(j == (j / 10) * 10 + j % 10);
                assert(false);
            } else {
                lemma_dec_digits_injective(i / 10, j / 10);
                assert(false);
            }
        }
    }
}

/// A decimal rendering always holds at least one digit.
proof fn lemma_dec_digits_len(n: int)
    requires
        0 <= n,
    ensures
        dec_digits(n).len() >= 1,
{
}

/// Naming monotonicity: the names handed out across the process lifetime
/// never repeat. Together with `next_name`'s contract — the call observing
/// counter value `n` returns exactly `spec_name(n)` and advances the counter
/// by exactly one — the sequence of names after `N` tagging steps is exactly
/// `spec_name(0), spec_name(1), …, spec_name(N - 1)`, with no repeats and no
/// gaps.
pub proof fn lemma_spec_name_injective(i: int, j: int)
    requires
        0 <= i,
        0 <= j,
        i != j,
    ensures
        spec_name(i) != spec_name(j),
{
    reveal_strlit("Original Barry");
    reveal_strlit("Barry ");
    if i == 0 || j == 0 {
        let n = if i == 0 {
            j
        } else {
            i
        };
        if spec_name(0) == spec_name(n) {
            assert(spec_name(0)[0] == 'O');
            assert(spec_name(n)[0] == ("Barry "@ + dec_digits(n))[0]);
            assert(spec_name(n)[0] == 'B');
        }
    } else {
        if spec_name(i) == spec_name(j) {
            assert(("Barry "@ + dec_digits(i)).len() == 6 + dec_digits(i).len());
            assert(dec_digits(i) =~= dec_digits(j)) by {
                assert(dec_digits(i).len() == dec_digits(j).len());
                assert(forall|k: int|
                    0 <= k < dec_digits(i).len() ==> dec_digits(i)[k] == ("Barry "@ + dec_digits(
                        i,
                    ))[6 + k] && dec_digits(j)[k] == ("Barry "@ + dec_digits(j))[6 + k]);
            }
            lemma_dec_digits_injective(i, j);
        }
    }
}

} // verus!
