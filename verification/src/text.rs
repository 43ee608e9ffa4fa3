//! Decimal text: how numbers are written into the reports.

use crate::cost::SplitError;
use vstd::prelude::*;
use vstd::string::StringExecFns;

verus! {

/// The character of the decimal digit `d`.
pub open spec fn digit(d: int) -> char {
    if d == 0 {
        '0'
    } else if d == 1 {
        '1'
    } else if d == 2 {
        '2'
    } else if d == 3 {
        '3'
    } else if d == 4 {
        '4'
    } else if d == 5 {
        '5'
    } else if d == 6 {
        '6'
    } else if d == 7 {
        '7'
    } else if d == 8 {
        '8'
    } else {
        '9'
    }
}

/// The decimal numeral of `n`, without leading zeros.
pub open spec fn decimal(n: nat) -> Seq<char>
    decreases n,
{
    if n < 10 {
        seq![digit(n as int)]
    } else {
        decimal(n / 10).push(digit((n % 10) as int))
    }
}

/// The two decimal digits of `n`, which is below 100.
pub open spec fn two_digits(n: nat) -> Seq<char> {
    seq![digit((n / 10) as int), digit((n % 10) as int)]
}

/// The texts `f(0)`, ..., `f(n - 1)` one after the other, each behind its
/// number, a point and a blank; or the first failure among them.
pub open spec fn numbered(f: spec_fn(int) -> Result<Seq<char>, SplitError>, n: int) -> Result<
    Seq<char>,
    SplitError,
>
    decreases n,
{
    if n <= 0 {
        Ok(Seq::<char>::empty())
    } else {
        match numbered(f, n - 1) {
            Err(e) => Err(e),
            Ok(before) => match f(n - 1) {
                Err(e) => Err(e),
                Ok(text) => Ok(before + decimal((n - 1) as nat) + ". "@ + text),
            },
        }
    }
}

/// Once a numbered list has failed, it stays failed with the same error
/// however many texts follow.
pub proof fn lemma_numbered_failed(
    f: spec_fn(int) -> Result<Seq<char>, SplitError>,
    m: int,
    n: int,
)
    requires
        m <= n,
        numbered(f, m) is Err,
    ensures
        numbered(f, n) == numbered(f, m),
    decreases n - m,
{
    if m < n {
        lemma_numbered_failed(f, m, n - 1);
    }
}

/// The one-character text of the decimal digit `d`.
pub fn digit_text(d: u8) -> (t: &'static str)
    requires
        d < 10,
    ensures
        t@ == seq![digit(d as int)],
{
    proof {
        reveal_strlit("0");
        reveal_strlit("1");
        reveal_strlit("2");
        reveal_strlit("3");
        reveal_strlit("4");
        reveal_strlit("5");
        reveal_strlit("6");
        reveal_strlit("7");
        reveal_strlit("8");
        reveal_strlit("9");
    }
    let t = if d == 0 {
        "0"
    } else if d == 1 {
        "1"
    } else if d == 2 {
        "2"
    } else if d == 3 {
        "3"
    } else if d == 4 {
        "4"
    } else if d == 5 {
        "5"
    } else if d == 6 {
        "6"
    } else if d == 7 {
        "7"
    } else if d == 8 {
        "8"
    } else {
        "9"
    };
    assert(t@ =~= seq![digit(d as int)]);
    t
}

/// Appends the decimal numeral of `n` to `out`.
pub fn push_decimal(out: &mut String, n: u64)
    ensures
        final(out)@ == old(out)@ + decimal(n as nat),
    decreases n,
{
    if n >= 10 {
        push_decimal(out, n / 10);
    }
    out.append(digit_text((n % 10) as u8));
    assert(out@ =~= old(out)@ + decimal(n as nat));
}

/// Appends the two decimal digits of `n` to `out`.
pub fn push_two_digits(out: &mut String, n: u8)
    requires
        n < 100,
    ensures
        final(out)@ == old(out)@ + two_digits(n as nat),
{
    out.append(digit_text(n / 10));
    out.append(digit_text(n % 10));
    assert(out@ =~= old(out)@ + two_digits(n as nat));
}

} // verus!
