//! Finite sums of real numbers, and sums computed step by step within the
//! range of a `Cost`.

use crate::cost::{checked, SplitError};
use vstd::prelude::*;

verus! {

/// `f(0) + f(1) + ... + f(n - 1)`.
pub open spec fn sum_to(f: spec_fn(int) -> real, n: int) -> real
    decreases n,
{
    if n <= 0 {
        0real
    } else {
        sum_to(f, n - 1) + f(n - 1)
    }
}

/// What adding up `f(0)`, ..., `f(n - 1)` from left to right returns: the
/// first failure among the terms and the running sums, or else the sum.
pub open spec fn accumulate(f: spec_fn(int) -> Result<real, SplitError>, n: int) -> Result<
    real,
    SplitError,
>
    decreases n,
{
    if n <= 0 {
        Ok(0real)
    } else {
        match accumulate(f, n - 1) {
            Err(e) => Err(e),
            Ok(acc) => match f(n - 1) {
                Err(e) => Err(e),
                Ok(term) => checked(acc + term),
            },
        }
    }
}

/// The failure of the first of `f(0)`, ..., `f(n - 1)` that failed, if any
/// did.
pub open spec fn first_error(f: spec_fn(int) -> Result<real, SplitError>, n: int) -> Option<
    SplitError,
>
    decreases n,
{
    if n <= 0 {
        None
    } else {
        match first_error(f, n - 1) {
            Some(e) => Some(e),
            None => match f(n - 1) {
                Err(e) => Some(e),
                Ok(_) => None,
            },
        }
    }
}

/// The value of a term that was computed, and zero for one that failed.
pub open spec fn value_or_zero(r: Result<real, SplitError>) -> real {
    match r {
        Ok(v) => v,
        Err(_) => 0real,
    }
}

/// Sums of functions that agree below `n` are equal.
pub proof fn lemma_sum_agree(f: spec_fn(int) -> real, g: spec_fn(int) -> real, n: int)
    requires
        forall|k: int| 0 <= k < n ==> #[trigger] f(k) == g(k),
    ensures
        sum_to(f, n) == sum_to(g, n),
    decreases n,
{
    if n > 0 {
        lemma_sum_agree(f, g, n - 1);
    }
}

/// The sum of zeros is zero.
pub proof fn lemma_sum_zero(f: spec_fn(int) -> real, n: int)
    requires
        forall|k: int| 0 <= k < n ==> #[trigger] f(k) == 0real,
    ensures
        sum_to(f, n) == 0real,
    decreases n,
{
    if n > 0 {
        lemma_sum_zero(f, n - 1);
    }
}

/// A sum of sums is the sum of the two sums.
pub proof fn lemma_sum_add(
    f: spec_fn(int) -> real,
    g: spec_fn(int) -> real,
    h: spec_fn(int) -> real,
    n: int,
)
    requires
        forall|k: int| 0 <= k < n ==> #[trigger] h(k) == f(k) + g(k),
    ensures
        sum_to(h, n) == sum_to(f, n) + sum_to(g, n),
    decreases n,
{
    if n > 0 {
        lemma_sum_add(f, g, h, n - 1);
    }
}

/// A common factor can be taken out of a sum.
pub proof fn lemma_sum_scale(c: real, f: spec_fn(int) -> real, h: spec_fn(int) -> real, n: int)
    requires
        forall|k: int| 0 <= k < n ==> #[trigger] h(k) == c * f(k),
    ensures
        sum_to(h, n) == c * sum_to(f, n),
    decreases n,
{
    if n > 0 {
        lemma_sum_scale(c, f, h, n - 1);
        assert(c * sum_to(f, n - 1) + c * f(n - 1) == c * (sum_to(f, n - 1) + f(n - 1)))
            by (nonlinear_arith);
    } else {
        assert(c * 0real == 0real) by (nonlinear_arith);
    }
}

/// A sum in which only the term at `at` may differ from zero is that term.
pub proof fn lemma_sum_single(f: spec_fn(int) -> real, n: int, at: int)
    requires
        0 <= at < n,
        forall|k: int| 0 <= k < n && k != at ==> #[trigger] f(k) == 0real,
    ensures
        sum_to(f, n) == f(at),
    decreases n,
{
    if at == n - 1 {
        lemma_sum_zero(f, n - 1);
    } else {
        lemma_sum_single(f, n - 1, at);
    }
}

/// The order of two nested sums can be exchanged: adding a table up row by
/// row gives the same as adding it up column by column.
pub proof fn lemma_sum_exchange(
    cell: spec_fn(int, int) -> real,
    rows: spec_fn(int) -> real,
    columns: spec_fn(int) -> real,
    n_rows: int,
    n_columns: int,
)
    requires
        0 <= n_rows,
        0 <= n_columns,
        forall|r: int|
            0 <= r < n_rows ==> #[trigger] rows(r) == sum_to(|c: int| cell(r, c), n_columns),
        forall|c: int|
            0 <= c < n_columns ==> #[trigger] columns(c) == sum_to(|r: int| cell(r, c), n_rows),
    ensures
        sum_to(rows, n_rows) == sum_to(columns, n_columns),
    decreases n_rows,
{
    if n_rows == 0 {
        lemma_sum_zero(columns, n_columns);
    } else {
        let last = n_rows - 1;
        let upper = |c: int| sum_to(|r: int| cell(r, c), last);
        let bottom = |c: int| cell(last, c);
        lemma_sum_exchange(cell, rows, upper, last, n_columns);
        assert forall|c: int| 0 <= c < n_columns implies #[trigger] columns(c) == upper(c)
            + bottom(c) by {
            assert(columns(c) == sum_to(|r: int| cell(r, c), n_rows));
        }
        lemma_sum_add(upper, bottom, columns, n_columns);
        assert(rows(last) == sum_to(bottom, n_columns));
    }
}

/// Adding up `f` along a list of distinct indices below `n` gives the same as
/// adding up, over all indices below `n`, `f` where the list holds the index
/// and zero where it does not.
pub proof fn lemma_sum_over_listed(
    list: Seq<int>,
    f: spec_fn(int) -> real,
    along: spec_fn(int) -> real,
    marked: spec_fn(int) -> real,
    n: int,
)
    requires
        forall|j: int| 0 <= j < list.len() ==> 0 <= #[trigger] list[j] < n,
        forall|j: int, k: int| 0 <= j < k < list.len() ==> list[j] != list[k],
        forall|j: int| 0 <= j < list.len() ==> #[trigger] along(j) == f(list[j]),
        forall|i: int|
            0 <= i < n ==> #[trigger] marked(i) == if list.contains(i) {
                f(i)
            } else {
                0real
            },
    ensures
        sum_to(along, list.len() as int) == sum_to(marked, n),
    decreases list.len(),
{
    if list.len() == 0 {
        lemma_sum_zero(marked, n);
    } else {
        let rest = list.drop_last();
        let x = list.last();
        let marked_rest = |i: int|
            if rest.contains(i) {
                f(i)
            } else {
                0real
            };
        let point = |i: int|
            if i == x {
                f(i)
            } else {
                0real
            };
        lemma_sum_over_listed(rest, f, along, marked_rest, n);
        assert(!rest.contains(x));
        assert forall|i: int| 0 <= i < n implies #[trigger] marked(i) == marked_rest(i) + point(
            i,
        ) by {
            if list.contains(i) {
                let j = choose|j: int| 0 <= j < list.len() && list[j] == i;
                if j < rest.len() {
                    assert(rest[j] == i);
                }
            }
            if rest.contains(i) {
                let j = choose|j: int| 0 <= j < rest.len() && rest[j] == i;
                assert(list[j] == i);
            }
            if i == x {
                assert(list[list.len() - 1] == x);
            }
        }
        lemma_sum_add(marked_rest, point, marked, n);
        lemma_sum_single(point, n, x);
    }
}

/// A sum that was computed step by step is the sum of its terms, each of
/// which was computed.
pub proof fn lemma_accumulate_ok(f: spec_fn(int) -> Result<real, SplitError>, n: int)
    requires
        accumulate(f, n) is Ok,
    ensures
        forall|k: int| 0 <= k < n ==> (#[trigger] f(k)) is Ok,
        accumulate(f, n)->Ok_0 == sum_to(|k: int| value_or_zero(f(k)), n),
    decreases n,
{
    if n > 0 {
        lemma_accumulate_ok(f, n - 1);
    }
}

/// Once a step-by-step sum has failed, it stays failed with the same error
/// however many terms follow.
pub proof fn lemma_accumulate_failed(
    f: spec_fn(int) -> Result<real, SplitError>,
    m: int,
    n: int,
)
    requires
        m <= n,
        accumulate(f, m) is Err,
    ensures
        accumulate(f, n) == accumulate(f, m),
    decreases n - m,
{
    if m < n {
        lemma_accumulate_failed(f, m, n - 1);
    }
}

/// The first failure stays the first failure however many terms follow.
pub proof fn lemma_first_error_found(f: spec_fn(int) -> Result<real, SplitError>, m: int, n: int)
    requires
        m <= n,
        first_error(f, m) is Some,
    ensures
        first_error(f, n) == first_error(f, m),
    decreases n - m,
{
    if m < n {
        lemma_first_error_found(f, m, n - 1);
    }
}

} // verus!
