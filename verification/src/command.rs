//! Reading the words of a command: what the text of an answer or an argument
//! stands for, and what a command line does to a receipt.

use crate::cost::{ratio, Cost};
use crate::receipt::{Receipt, ReceiptView};
use vstd::prelude::*;
use vstd::string::{StrSliceExecFns, StringExecFns};

verus! {

/// What a yes-or-no answer means: it is read by its first character alone,
/// `Y` or `T` for yes and `N` or `F` for no, in either case.
pub open spec fn bool_of_text(s: Seq<char>) -> Option<bool> {
    if s.len() == 0 {
        None
    } else if s[0] == 'Y' || s[0] == 'y' || s[0] == 'T' || s[0] == 't' {
        Some(true)
    } else if s[0] == 'N' || s[0] == 'n' || s[0] == 'F' || s[0] == 'f' {
        Some(false)
    } else {
        None
    }
}

/// Reads a yes-or-no answer.
pub fn text_to_bool(input: &str) -> (r: Option<bool>)
    ensures
        r == bool_of_text(input@),
{
    if input.is_empty() {
        return None;
    }
    let c = input.get_char(0);
    if c == 'Y' || c == 'y' || c == 'T' || c == 't' {
        Some(true)
    } else if c == 'N' || c == 'n' || c == 'F' || c == 'f' {
        Some(false)
    } else {
        None
    }
}

/// The value of a decimal digit, and nothing for any other character.
pub open spec fn digit_value(c: char) -> Option<nat> {
    if c == '0' {
        Some(0)
    } else if c == '1' {
        Some(1)
    } else if c == '2' {
        Some(2)
    } else if c == '3' {
        Some(3)
    } else if c == '4' {
        Some(4)
    } else if c == '5' {
        Some(5)
    } else if c == '6' {
        Some(6)
    } else if c == '7' {
        Some(7)
    } else if c == '8' {
        Some(8)
    } else if c == '9' {
        Some(9)
    } else {
        None
    }
}

/// Every character of `s` is a decimal digit.
pub open spec fn all_digits(s: Seq<char>) -> bool {
    forall|i: int| 0 <= i < s.len() ==> digit_value(#[trigger] s[i]) is Some
}

/// The number that the digits of `s` write in decimal; 0 for no digits.
pub open spec fn numeral_value(s: Seq<char>) -> nat
    decreases s.len(),
{
    if s.len() == 0 {
        0
    } else {
        numeral_value(s.drop_last()) * 10 + match digit_value(s.last()) {
            Some(d) => d,
            None => 0,
        }
    }
}

/// A numeral is worth at least as much as any of its beginnings.
pub proof fn lemma_numeral_grows(s: Seq<char>, k: int)
    requires
        0 <= k <= s.len(),
    ensures
        numeral_value(s.take(k)) <= numeral_value(s),
    decreases s.len(),
{
    if k == s.len() {
        assert(s.take(k) =~= s);
    } else {
        lemma_numeral_grows(s.drop_last(), k);
        assert(s.drop_last().take(k) =~= s.take(k));
    }
}

/// The place of the first `c` in `s`, or the length of `s` if there is none.
pub open spec fn first_index(s: Seq<char>, c: char) -> int
    decreases s.len(),
{
    if s.len() == 0 {
        0
    } else if s.first() == c {
        0
    } else {
        1 + first_index(s.drop_first(), c)
    }
}

/// `first_index` is the one place before which there is no `c` and at which
/// there is one, unless it is the end.
pub proof fn lemma_first_index(s: Seq<char>, c: char, at: int)
    requires
        0 <= at <= s.len(),
        forall|j: int| 0 <= j < at ==> s[j] != c,
        at < s.len() ==> s[at] == c,
    ensures
        first_index(s, c) == at,
    decreases s.len(),
{
    if s.len() > 0 && s.first() != c {
        let rest = s.drop_first();
        assert forall|j: int| 0 <= j < at - 1 implies rest[j] != c by {
            assert(rest[j] == s[j + 1]);
        }
        lemma_first_index(rest, c, at - 1);
    }
}

/// The characters of `text`.
pub fn chars_of(text: &str) -> (v: Vec<char>)
    ensures
        v@ == text@,
{
    let n = text.unicode_len();
    let mut v: Vec<char> = Vec::new();
    let mut i: usize = 0;
    while i < n
        invariant
            i <= n,
            n == text@.len(),
            v@ == text@.take(i as int),
        decreases n - i,
    {
        v.push(text.get_char(i));
        i += 1;
        assert(v@ =~= text@.take(i as int));
    }
    assert(text@.take(n as int) =~= text@);
    v
}

/// The value of the decimal digit `c`, if it is one.
pub fn digit_of(c: char) -> (r: Option<u8>)
    ensures
        match r {
            Some(d) => digit_value(c) == Some(d as nat) && d < 10,
            None => digit_value(c) is None,
        },
{
    if c == '0' {
        Some(0)
    } else if c == '1' {
        Some(1)
    } else if c == '2' {
        Some(2)
    } else if c == '3' {
        Some(3)
    } else if c == '4' {
        Some(4)
    } else if c == '5' {
        Some(5)
    } else if c == '6' {
        Some(6)
    } else if c == '7' {
        Some(7)
    } else if c == '8' {
        Some(8)
    } else if c == '9' {
        Some(9)
    } else {
        None
    }
}

/// What a text means as a number of cents: an optional `+` and then one or
/// more decimal digits that write a number of at most 32 bits.
pub open spec fn cost_of_text(s: Seq<char>) -> Option<u32> {
    let digits = if s.len() > 0 && s[0] == '+' {
        s.subrange(1, s.len() as int)
    } else {
        s
    };
    if digits.len() > 0 && all_digits(digits) && numeral_value(digits) <= u32::MAX {
        Some(numeral_value(digits) as u32)
    } else {
        None
    }
}

/// Reads the characters of `v` from place `from` up to place `to` as a
/// decimal numeral of at most `limit`.
fn read_numeral(v: &Vec<char>, from: usize, to: usize, limit: u64) -> (r: Option<u64>)
    requires
        from <= to <= v@.len(),
        9 <= limit <= 0x7fff_ffff_ffff_ffff,
    ensures
        match r {
            Some(n) => all_digits(v@.subrange(from as int, to as int)) && n == numeral_value(
                v@.subrange(from as int, to as int),
            ) && n <= limit,
            None => !all_digits(v@.subrange(from as int, to as int)) || numeral_value(
                v@.subrange(from as int, to as int),
            ) > limit,
        },
{
    let ghost digits = v@.subrange(from as int, to as int);
    let mut n: u64 = 0;
    let mut i: usize = from;
    assert(digits.take(0) =~= Seq::<char>::empty());
    while i < to
        invariant
            from <= i <= to <= v@.len(),
            9 <= limit <= 0x7fff_ffff_ffff_ffff,
            digits == v@.subrange(from as int, to as int),
            all_digits(digits.take(i - from)),
            n == numeral_value(digits.take(i - from)),
            n <= limit,
        decreases to - i,
    {
        let ghost before = digits.take(i - from);
        let ghost upto = digits.take(i - from + 1);
        proof {
            assert(upto.drop_last() =~= before);
            assert(upto.last() == v@[i as int]);
        }
        match digit_of(v[i]) {
            None => {
                assert(digit_value(digits[i - from]) is None);
                return None;
            },
            Some(d) => {
                if n > (limit - d as u64) / 10 {
                    proof {
                        assert(numeral_value(upto) > limit) by (nonlinear_arith)
                            requires
                                numeral_value(upto) == n * 10 + d,
                                n > (limit - d) / 10,
                                d < 10,
                                d <= limit,
                        ;
                        lemma_numeral_grows(digits, i - from + 1);
                    }
                    return None;
                }
                assert(n * 10 + d <= limit) by (nonlinear_arith)
                    requires
                        n <= (limit - d) / 10,
                        d <= limit,
                ;
                n = n * 10 + d as u64;
                assert forall|j: int| 0 <= j < upto.len() implies digit_value(
                    #[trigger] upto[j],
                ) is Some by {
                    if j < before.len() {
                        assert(upto[j] == before[j]);
                    }
                }
            },
        }
        i += 1;
    }
    assert(digits.take(to - from) =~= digits);
    Some(n)
}

/// Reads a number of cents.
pub fn parse_cost(text: &str) -> (r: Option<u32>)
    ensures
        r == cost_of_text(text@),
{
    let v = chars_of(text);
    let from: usize = if v.len() > 0 && v[0] == '+' {
        1
    } else {
        0
    };
    if from == v.len() {
        return None;
    }
    proof {
        if from == 0 {
            assert(v@.subrange(0, v@.len() as int) =~= v@);
        }
    }
    match read_numeral(&v, from, v.len(), 4294967295) {
        Some(n) => Some(n as u32),
        None => None,
    }
}

/// Ten to the power of `k`.
pub open spec fn ten_to(k: nat) -> nat
    decreases k,
{
    if k == 0 {
        1
    } else {
        10 * ten_to((k - 1) as nat)
    }
}

/// A numeral of `k` digits is worth less than ten to the power of `k`.
pub proof fn lemma_numeral_bound(s: Seq<char>)
    requires
        all_digits(s),
    ensures
        numeral_value(s) < ten_to(s.len()),
    decreases s.len(),
{
    if s.len() > 0 {
        let rest = s.drop_last();
        assert forall|i: int| 0 <= i < rest.len() implies digit_value(#[trigger] rest[i]) is Some by {
            assert(rest[i] == s[i]);
        }
        lemma_numeral_bound(rest);
        assert(digit_value(s[s.len() - 1]) is Some);
    }
}

/// The value of two numerals written one after the other.
pub proof fn lemma_numeral_joined(a: Seq<char>, b: Seq<char>)
    ensures
        numeral_value(a + b) == numeral_value(a) * ten_to(b.len()) + numeral_value(b),
    decreases b.len(),
{
    let x = numeral_value(a);
    if b.len() == 0 {
        assert(a + b =~= a);
        assert(x * 1 + 0 == x) by (nonlinear_arith);
    } else {
        lemma_numeral_joined(a, b.drop_last());
        assert((a + b).drop_last() =~= a + b.drop_last());
        assert((a + b).last() == b.last());
        let t = ten_to(b.drop_last().len());
        let y = numeral_value(b.drop_last());
        assert(b.drop_last().len() == (b.len() - 1) as nat);
        assert(ten_to(b.len()) == 10 * t);
        assert((x * t + y) * 10 == x * (10 * t) + y * 10) by (nonlinear_arith);
    }
}

/// The digits of a decimal number without its sign, read as one whole
/// number, and the number of its decimal places: one or more decimal digits
/// and, if a point follows, one or more decimal places. There is none if the
/// text has another form, more than 18 places, or digits that write a number
/// of more than 63 bits.
pub open spec fn decimal_of_text(body: Seq<char>) -> Option<(nat, nat)> {
    let point = first_index(body, '.');
    let whole = body.subrange(0, point);
    let places = if point < body.len() {
        body.subrange(point + 1, body.len() as int)
    } else {
        Seq::<char>::empty()
    };
    if whole.len() > 0 && all_digits(whole) && all_digits(places) && (point < body.len()
        ==> places.len() > 0) && places.len() <= 18 && numeral_value(whole + places) <= i64::MAX {
        Some((numeral_value(whole + places), places.len()))
    } else {
        None
    }
}

/// What a text means as an amount or a rate: an optional sign and a decimal
/// number. The digits, read as one whole number, are divided by ten to the
/// power of the number of decimal places.
pub open spec fn amount_of_text(s: Seq<char>) -> Option<real> {
    let signed = s.len() > 0 && (s[0] == '-' || s[0] == '+');
    let body = if signed {
        s.subrange(1, s.len() as int)
    } else {
        s
    };
    match decimal_of_text(body) {
        Some((digits, places)) => Some(
            if s[0] == '-' {
                -ratio(digits as int, ten_to(places) as int)
            } else {
                ratio(digits as int, ten_to(places) as int)
            },
        ),
        None => None,
    }
}

/// A power of ten is at least 1.
pub proof fn lemma_ten_to_positive(k: nat)
    ensures
        ten_to(k) >= 1,
    decreases k,
{
    if k > 0 {
        lemma_ten_to_positive((k - 1) as nat);
    }
}

/// Powers of ten grow with the exponent.
pub proof fn lemma_ten_to_grows(j: nat, k: nat)
    requires
        j <= k,
    ensures
        ten_to(j) <= ten_to(k),
    decreases k - j,
{
    if j < k {
        lemma_ten_to_grows(j, (k - 1) as nat);
    }
}

/// Up to 18 decimal places stay below a million million millions.
pub proof fn lemma_places_bound(k: nat)
    requires
        k <= 18,
    ensures
        1 <= ten_to(k) <= 1_000_000_000_000_000_000,
{
    lemma_ten_to_positive(k);
    lemma_ten_to_grows(k, 18);
    assert(ten_to(18) == 1_000_000_000_000_000_000) by {
        reveal_with_fuel(ten_to, 20);
    }
}

/// Ten to the power of `k`.
fn power_of_ten(k: usize) -> (r: u64)
    requires
        k <= 18,
    ensures
        r == ten_to(k as nat),
        1 <= r <= 1_000_000_000_000_000_000,
{
    let mut r: u64 = 1;
    let mut j: usize = 0;
    while j < k
        invariant
            j <= k <= 18,
            r == ten_to(j as nat),
        decreases k - j,
    {
        proof {
            lemma_places_bound((j + 1) as nat);
        }
        r = r * 10;
        j += 1;
    }
    proof {
        lemma_places_bound(k as nat);
    }
    r
}

/// The place of the first point in `v` from place `from` on, or the length
/// of `v` if there is none.
fn find_point(v: &Vec<char>, from: usize) -> (point: usize)
    requires
        from <= v@.len(),
    ensures
        from <= point <= v@.len(),
        point - from == first_index(v@.subrange(from as int, v@.len() as int), '.'),
{
    let n = v.len();
    let mut point: usize = from;
    while point < n && v[point] != '.'
        invariant
            from <= point <= n == v@.len(),
            forall|j: int| from <= j < point ==> v@[j] != '.',
        decreases n - point,
    {
        point += 1;
    }
    proof {
        lemma_first_index(v@.subrange(from as int, n as int), '.', point - from);
    }
    point
}

/// The digits before and after the point make one numeral: it is worth at
/// least as much as the digits before the point, and exactly what joining
/// the two parts gives.
proof fn lemma_joined_parts(whole: Seq<char>, places: Seq<char>)
    requires
        places.len() <= 18,
    ensures
        numeral_value(whole) <= numeral_value(whole + places),
        numeral_value(whole + places) == numeral_value(whole) * ten_to(places.len())
            + numeral_value(places),
        all_digits(places) ==> numeral_value(places) < 1_000_000_000_000_000_000,
{
    lemma_numeral_joined(whole, places);
    lemma_numeral_grows(whole + places, whole.len() as int);
    assert((whole + places).take(whole.len() as int) =~= whole);
    if all_digits(places) {
        lemma_numeral_bound(places);
        lemma_places_bound(places.len());
    }
}

/// Reads the decimal number without sign that `v` holds from place `from`
/// on: its digits as one whole number, and ten to the power of the number
/// of its decimal places.
fn read_decimal(v: &Vec<char>, from: usize) -> (r: Option<(u64, u64)>)
    requires
        from <= v@.len(),
    ensures
        match r {
            Some((digits, scale)) => {
                let d = decimal_of_text(v@.subrange(from as int, v@.len() as int));
                &&& d is Some
                &&& digits == d->Some_0.0
                &&& scale == ten_to(d->Some_0.1)
                &&& digits <= i64::MAX
                &&& 1 <= scale <= 1_000_000_000_000_000_000
            },
            None => decimal_of_text(v@.subrange(from as int, v@.len() as int)) is None,
        },
{
    let n = v.len();
    let point = find_point(v, from);
    let start: usize = if point < n {
        point + 1
    } else {
        n
    };
    let ghost body = v@.subrange(from as int, n as int);
    let ghost whole = v@.subrange(from as int, point as int);
    let ghost places = v@.subrange(start as int, n as int);
    proof {
        assert(body.subrange(0, point - from) =~= whole);
        if point < n {
            assert(body.subrange(point - from + 1, body.len() as int) =~= places);
        } else {
            assert(places =~= Seq::<char>::empty());
        }
    }
    if point == from || (point < n && start == n) || n - start > 18 {
        return None;
    }
    proof {
        lemma_joined_parts(whole, places);
    }
    let w = match read_numeral(v, from, point, 9223372036854775807) {
        Some(w) => w,
        None => {
            return None;
        },
    };
    let f = match read_numeral(v, start, n, 9223372036854775807) {
        Some(f) => f,
        None => {
            return None;
        },
    };
    let scale = power_of_ten(n - start);
    assert(w * scale <= 0x7fff_ffff_ffff_ffff * 1_000_000_000_000_000_000) by (nonlinear_arith)
        requires
            w <= 0x7fff_ffff_ffff_ffff,
            scale <= 1_000_000_000_000_000_000,
    ;
    let digits: u128 = (w as u128) * (scale as u128) + (f as u128);
    if digits > 9223372036854775807 {
        return None;
    }
    Some((digits as u64, scale))
}

/// Reads an amount or a rate written in decimal.
pub fn parse_amount(text: &str) -> (r: Option<Cost>)
    ensures
        match r {
            Some(c) => amount_of_text(text@) == Some(c@),
            None => amount_of_text(text@) is None,
        },
{
    let v = chars_of(text);
    let n = v.len();
    let from: usize = if n > 0 && (v[0] == '-' || v[0] == '+') {
        1
    } else {
        0
    };
    let negative = n > 0 && v[0] == '-';
    proof {
        if from == 0 {
            assert(v@.subrange(0, n as int) =~= text@);
        }
    }
    let (digits, scale) = match read_decimal(&v, from) {
        Some(parts) => parts,
        None => {
            return None;
        },
    };
    let num: i64 = if negative {
        -(digits as i64)
    } else {
        digits as i64
    };
    proof {
        assert(ratio(-(digits as int), scale as int) == -ratio(digits as int, scale as int))
            by (nonlinear_arith)
            requires
                scale >= 1,
        ;
        Cost::lemma_in_range_representable(num as int, scale as int);
    }
    match Cost::fraction(num, scale as i64) {
        Ok(c) => Some(c),
        Err(_) => None,
    }
}

/// The words of a line: the pieces between its blanks. Two blanks in a row
/// have an empty word between them, and a line without a blank is one word.
pub open spec fn words(s: Seq<char>) -> Seq<Seq<char>>
    decreases s.len(),
{
    let blank = first_index(s, ' ');
    if 0 <= blank < s.len() {
        seq![s.subrange(0, blank)] + words(s.subrange(blank + 1, s.len() as int))
    } else {
        seq![s]
    }
}

/// The texts of the words in `t`.
pub open spec fn texts(t: Seq<&str>) -> Seq<Seq<char>> {
    Seq::new(t.len(), |i: int| t[i]@)
}

/// Splits a line at its blanks.
pub fn split_words<'a>(line: &'a str) -> (r: Vec<&'a str>)
    ensures
        texts(r@) == words(line@),
        r@.len() >= 1,
{
    let v = chars_of(line);
    let n = v.len();
    let mut r: Vec<&'a str> = Vec::new();
    let mut start: usize = 0;
    let mut i: usize = 0;
    proof {
        assert(line@.subrange(0, n as int) =~= line@);
        assert(texts(r@) =~= Seq::<Seq<char>>::empty());
        assert(Seq::<Seq<char>>::empty() + words(line@) =~= words(line@));
    }
    while i < n
        invariant
            start <= i <= n,
            n == line@.len(),
            v@ == line@,
            forall|j: int| start <= j < i ==> line@[j] != ' ',
            words(line@) == texts(r@) + words(line@.subrange(start as int, n as int)),
        decreases n - i,
    {
        if v[i] == ' ' {
            let ghost rest = line@.subrange(start as int, n as int);
            let ghost before = texts(r@);
            proof {
                lemma_first_index(rest, ' ', i - start);
                assert(rest.subrange(0, i - start) =~= line@.subrange(start as int, i as int));
                assert(rest.subrange(i - start + 1, rest.len() as int) =~= line@.subrange(
                    i + 1,
                    n as int,
                ));
            }
            r.push(line.substring_char(start, i));
            assert(texts(r@) =~= before + seq![line@.subrange(start as int, i as int)]);
            start = i + 1;
        }
        i += 1;
    }
    let ghost rest = line@.subrange(start as int, n as int);
    let ghost before = texts(r@);
    proof {
        lemma_first_index(rest, ' ', n - start);
    }
    r.push(line.substring_char(start, n));
    assert(texts(r@) =~= before + seq![rest]);
    r
}

/// A line without the line feed that ends it and without the carriage return
/// before that.
pub open spec fn without_line_end(s: Seq<char>) -> Seq<char> {
    let fed = if s.len() > 0 && s.last() == '\n' {
        s.drop_last()
    } else {
        s
    };
    if fed.len() > 0 && fed.last() == '\r' {
        fed.drop_last()
    } else {
        fed
    }
}

/// Cuts the line end off a line that was read.
pub fn strip_line_end<'a>(line: &'a str) -> (r: &'a str)
    ensures
        r@ == without_line_end(line@),
{
    let v = chars_of(line);
    let mut end: usize = v.len();
    if end > 0 && v[end - 1] == '\n' {
        end -= 1;
    }
    assert(line@.subrange(0, end as int) =~= if line@.len() > 0 && line@.last() == '\n' {
        line@.drop_last()
    } else {
        line@
    });
    if end > 0 && v[end - 1] == '\r' {
        end -= 1;
    }
    let r = line.substring_char(0, end);
    assert(r@ =~= without_line_end(line@));
    r
}

/// How the tip is given.
#[derive(Clone, Copy, PartialEq, Eq, Structural, Debug)]
pub enum TipMode {
    /// As a rate.
    Rate,
    /// As an amount, beside the total of the receipt.
    Value,
    /// Not at all.
    Neither,
}

/// What the answer to the question for the tip means: a rate if it holds an
/// `r`, else an amount if it holds a `v`, else no tip.
pub open spec fn tip_mode_of_text(s: Seq<char>) -> TipMode {
    if s.contains('r') {
        TipMode::Rate
    } else if s.contains('v') {
        TipMode::Value
    } else {
        TipMode::Neither
    }
}

/// Whether `v` holds the character `c`.
fn holds(v: &Vec<char>, c: char) -> (r: bool)
    ensures
        r == v@.contains(c),
{
    let mut i: usize = 0;
    while i < v.len()
        invariant
            i <= v.len(),
            forall|j: int| 0 <= j < i ==> v@[j] != c,
        decreases v.len() - i,
    {
        if v[i] == c {
            return true;
        }
        i += 1;
    }
    false
}

/// Reads the answer to the question for the tip.
pub fn tip_mode(answer: &str) -> (r: TipMode)
    ensures
        r == tip_mode_of_text(answer@),
{
    let v = chars_of(answer);
    if holds(&v, 'r') {
        TipMode::Rate
    } else if holds(&v, 'v') {
        TipMode::Value
    } else {
        TipMode::Neither
    }
}

/// What became of an `item` command.
#[derive(Clone, Copy, PartialEq, Eq, Structural, Debug)]
pub enum ItemReply {
    /// It did not have four arguments.
    WrongCount,
    /// Its second argument is no number of cents.
    BadCost,
    /// Its third argument is no yes or no.
    BadTax,
    /// Its fourth argument is no yes or no.
    BadTip,
    /// Its arguments were handed to the receipt.
    Added,
}

/// What becomes of an `item` command with the arguments `t`: a name, a cost
/// in cents, whether it is taxed and whether it is tipped. The first
/// argument at fault decides.
pub open spec fn item_reply(t: Seq<Seq<char>>) -> ItemReply {
    if t.len() != 4 {
        ItemReply::WrongCount
    } else if cost_of_text(t[1]) is None {
        ItemReply::BadCost
    } else if bool_of_text(t[2]) is None {
        ItemReply::BadTax
    } else if bool_of_text(t[3]) is None {
        ItemReply::BadTip
    } else {
        ItemReply::Added
    }
}

/// The receipt after an `item` command with the arguments `t`: the item is
/// added if the arguments are in order, and nothing changes if they are not.
pub open spec fn after_item(r: ReceiptView, t: Seq<Seq<char>>) -> ReceiptView {
    if item_reply(t) == ItemReply::Added {
        r.add_item(
            r.new_item(
                t[0],
                cost_of_text(t[1])->Some_0 as int,
                bool_of_text(t[2])->Some_0,
                bool_of_text(t[3])->Some_0,
            ),
        )
    } else {
        r
    }
}

/// Carries out an `item` command with the arguments `t`.
pub fn item(r: &mut Receipt, t: &Vec<&str>) -> (reply: ItemReply)
    requires
        old(r)@.wf(),
    ensures
        reply == item_reply(texts(t@)),
        final(r)@ == after_item(old(r)@, texts(t@)),
        final(r)@.wf(),
{
    if t.len() != 4 {
        return ItemReply::WrongCount;
    }
    proof {
        assert(texts(t@)[0] == t@[0]@);
        assert(texts(t@)[1] == t@[1]@);
        assert(texts(t@)[2] == t@[2]@);
        assert(texts(t@)[3] == t@[3]@);
    }
    let name = t[0];
    let cost = match parse_cost(t[1]) {
        Some(cost) => cost,
        None => {
            return ItemReply::BadCost;
        },
    };
    let tax = match text_to_bool(t[2]) {
        Some(tax) => tax,
        None => {
            return ItemReply::BadTax;
        },
    };
    let tip = match text_to_bool(t[3]) {
        Some(tip) => tip,
        None => {
            return ItemReply::BadTip;
        },
    };
    r.add_item(String::from_str(name), cost, tax, tip);
    ItemReply::Added
}

/// What became of a command line.
#[derive(Clone, Copy, PartialEq, Eq, Structural, Debug)]
pub enum Reply {
    /// The help was asked for.
    Help,
    /// It was an `item` command, which ended so.
    Item(ItemReply),
    /// Its first word is no command.
    Unrecognized,
}

/// What becomes of a command line: its first word says which command it is,
/// and the words after it are the arguments.
pub open spec fn reply_to(line: Seq<char>) -> Reply {
    let w = words(line);
    if w[0] == "help"@ || w[0] == "h"@ {
        Reply::Help
    } else if w[0] == "item"@ {
        Reply::Item(item_reply(w.subrange(1, w.len() as int)))
    } else {
        Reply::Unrecognized
    }
}

/// The receipt after a command line: only an `item` command changes it.
pub open spec fn after_line(r: ReceiptView, line: Seq<char>) -> ReceiptView {
    let w = words(line);
    if reply_to(line) is Item {
        after_item(r, w.subrange(1, w.len() as int))
    } else {
        r
    }
}

/// Whether two texts are the same.
fn same_text(a: &str, b: &str) -> (r: bool)
    ensures
        r == (a@ == b@),
{
    let x = chars_of(a);
    let y = chars_of(b);
    if x.len() != y.len() {
        return false;
    }
    let mut i: usize = 0;
    while i < x.len()
        invariant
            i <= x.len() == y.len(),
            x@ == a@,
            y@ == b@,
            forall|j: int| 0 <= j < i ==> x@[j] == y@[j],
        decreases x.len() - i,
    {
        if x[i] != y[i] {
            return false;
        }
        i += 1;
    }
    assert(x@ =~= y@);
    true
}

/// Carries out a command line on the receipt.
pub fn interpret(r: &mut Receipt, line: &str) -> (reply: Reply)
    requires
        old(r)@.wf(),
    ensures
        reply == reply_to(line@),
        final(r)@ == after_line(old(r)@, line@),
        final(r)@.wf(),
{
    let mut t = split_words(line);
    let ghost all = texts(t@);
    let head = t.remove(0);
    proof {
        assert(head@ == all[0]);
        assert(texts(t@) =~= all.subrange(1, all.len() as int));
    }
    if same_text(head, "help") || same_text(head, "h") {
        Reply::Help
    } else if same_text(head, "item") {
        Reply::Item(item(r, &t))
    } else {
        Reply::Unrecognized
    }
}

} // verus!
