//! Greatest common divisors, and the facts about fractions in lowest terms
//! that exact money arithmetic rests on.

use vstd::prelude::*;

verus! {

/// The greatest common divisor of `a` and `b`; `gcd(0, 0)` is 0.
pub open spec fn gcd(a: nat, b: nat) -> nat
    decreases b,
{
    if b == 0 {
        a
    } else {
        gcd(b, a % b)
    }
}

/// The magnitude of `n`.
pub open spec fn magnitude(n: int) -> nat {
    if n < 0 {
        (-n) as nat
    } else {
        n as nat
    }
}

/// `n / d` is in lowest terms: `d` is positive and shares no factor with `n`.
pub open spec fn lowest_terms(n: int, d: int) -> bool {
    d > 0 && gcd(magnitude(n), d as nat) == 1
}

/// The gcd is positive unless both arguments are zero.
pub proof fn lemma_gcd_positive(a: nat, b: nat)
    requires
        a > 0 || b > 0,
    ensures
        gcd(a, b) > 0,
    decreases b,
{
    if b != 0 {
        lemma_gcd_positive(b, a % b);
    }
}

/// The gcd divides both arguments; the quotients are returned.
pub proof fn lemma_gcd_divides(a: nat, b: nat) -> (k: (nat, nat))
    ensures
        a == gcd(a, b) * k.0,
        b == gcd(a, b) * k.1,
    decreases b,
{
    if b == 0 {
        assert(a == a * 1 && 0 == a * 0) by (nonlinear_arith);
        (1, 0)
    } else {
        let g = gcd(b, a % b);
        let (kb, kr) = lemma_gcd_divides(b, a % b);
        let q = a / b;
        assert(a == g * (kb * q + kr)) by (nonlinear_arith)
            requires
                b == g * kb,
                a % b == g * kr,
                b != 0,
                q == a / b,
        ;
        (kb * q + kr, kb)
    }
}

/// Bezout's identity: the gcd is an integer combination of the arguments.
pub proof fn lemma_gcd_combination(a: nat, b: nat) -> (c: (int, int))
    ensures
        a * c.0 + b * c.1 == gcd(a, b),
    decreases b,
{
    if b == 0 {
        assert(a * 1 + 0 * 0 == a) by (nonlinear_arith);
        (1, 0)
    } else {
        let g = gcd(b, a % b);
        let (x, y) = lemma_gcd_combination(b, a % b);
        let q = a / b;
        assert(a * y + b * (x - q * y) == g) by (nonlinear_arith)
            requires
                b * x + (a % b) * y == g,
                b != 0,
                q == a / b,
        ;
        (y, x - q * y)
    }
}

/// Dividing both arguments by their gcd leaves two numbers whose gcd is 1.
pub proof fn lemma_quotients_coprime(a: nat, b: nat)
    requires
        b > 0,
    ensures
        gcd(a, b) > 0,
        a % gcd(a, b) == 0,
        b % gcd(a, b) == 0,
        gcd(a / gcd(a, b), b / gcd(a, b)) == 1,
{
    let g = gcd(a, b);
    lemma_gcd_positive(a, b);
    let (ka, kb) = lemma_gcd_divides(a, b);
    assert(a / g == ka && a % g == 0) by (nonlinear_arith)
        requires
            a == g * ka,
            g > 0,
    ;
    assert(b / g == kb && b % g == 0) by (nonlinear_arith)
        requires
            b == g * kb,
            g > 0,
    ;
    assert(kb > 0) by (nonlinear_arith)
        requires
            b == g * kb,
            b > 0,
            g > 0,
    ;
    let (x, y) = lemma_gcd_combination(a, b);
    assert(ka * x + kb * y == 1) by (nonlinear_arith)
        requires
            a * x + b * y == g,
            a == g * ka,
            b == g * kb,
            g > 0,
    ;
    let h = gcd(ka, kb);
    lemma_gcd_positive(ka, kb);
    let (u, v) = lemma_gcd_divides(ka, kb);
    let t = u * x + v * y;
    assert(h * t == 1) by (nonlinear_arith)
        requires
            ka == h * u,
            kb == h * v,
            ka * x + kb * y == 1,
            t == u * x + v * y,
    ;
    assert(t >= 1) by (nonlinear_arith)
        requires
            h * t == 1,
            h > 0,
    ;
    assert(h <= h * t) by (nonlinear_arith)
        requires
            t >= 1,
            h > 0,
    ;
}

/// A fraction in lowest terms has the smallest numerator and denominator
/// among all fractions of the same value.
pub proof fn lemma_lowest_terms_least(n: int, d: int, m: int, e: int)
    requires
        d > 0,
        lowest_terms(m, e),
        n * e == m * d,
    ensures
        e <= d,
        magnitude(m) <= magnitude(n),
{
    let (x0, y) = lemma_gcd_combination(magnitude(m), e as nat);
    let x = if m < 0 {
        -x0
    } else {
        x0
    };
    assert(m * x + e * y == 1) by (nonlinear_arith)
        requires
            magnitude(m) * x0 + e * y == 1,
            x == if m < 0 {
                -x0
            } else {
                x0
            },
            magnitude(m) == if m < 0 {
                -m
            } else {
                m
            },
    ;
    let k = n * x + d * y;
    assert(d == e * k) by (nonlinear_arith)
        requires
            m * x + e * y == 1,
            n * e == m * d,
            k == n * x + d * y,
    ;
    assert(k >= 1) by (nonlinear_arith)
        requires
            d == e * k,
            d > 0,
            e > 0,
    ;
    assert(n == m * k) by (nonlinear_arith)
        requires
            n * e == m * d,
            d == e * k,
            e > 0,
    ;
    assert(e <= d) by (nonlinear_arith)
        requires
            d == e * k,
            k >= 1,
            e > 0,
    ;
    assert(magnitude(m) <= magnitude(n)) by (nonlinear_arith)
        requires
            n == m * k,
            k >= 1,
            magnitude(m) == if m < 0 {
                -m
            } else {
                m
            },
            magnitude(n) == if n < 0 {
                -n
            } else {
                n
            },
    ;
}

/// Two fractions in lowest terms that have the same value are the same
/// fraction.
pub proof fn lemma_lowest_terms_unique(n: int, d: int, m: int, e: int)
    requires
        lowest_terms(n, d),
        lowest_terms(m, e),
        n * e == m * d,
    ensures
        n == m,
        d == e,
{
    lemma_lowest_terms_least(n, d, m, e);
    lemma_lowest_terms_least(m, e, n, d);
    assert(n == m) by (nonlinear_arith)
        requires
            n * e == m * d,
            d == e,
            d > 0,
    ;
}

/// Computes the greatest common divisor by Euclid's algorithm.
pub fn greatest_common_divisor(a: u128, b: u128) -> (g: u128)
    ensures
        g == gcd(a as nat, b as nat),
{
    let mut x: u128 = a;
    let mut y: u128 = b;
    while y != 0
        invariant
            gcd(x as nat, y as nat) == gcd(a as nat, b as nat),
        decreases y,
    {
        let r: u128 = x % y;
        x = y;
        y = r;
    }
    x
}

} // verus!
