//! `Cost`: an exact amount of money, counted in cents.
//!
//! An amount is a fraction of two machine integers kept in lowest terms, so
//! that splitting a charge three ways and adding the parts up again gives the
//! charge back to the last fraction of a cent. Its view is the real number it
//! stands for. Every operation either returns the exact result or reports that
//! the result has no such fraction.

use crate::gcd::{
    gcd, greatest_common_divisor, lemma_lowest_terms_least, lemma_lowest_terms_unique,
    lemma_quotients_coprime, lowest_terms, magnitude,
};
use crate::text::{decimal, push_decimal, push_two_digits, two_digits};
use vstd::prelude::*;
use vstd::string::StringExecFns;

verus! {

/// Why a computation on amounts gave no result.
#[derive(Clone, Copy, PartialEq, Eq, Structural, Debug)]
pub enum SplitError {
    /// The weights of an item's shares add up to zero, so there is nothing to
    /// divide its cost by.
    NoShares,
    /// The divisor of a division is zero.
    DivisionByZero,
    /// The exact result is not a fraction whose numerator and denominator fit
    /// the machine integers of a `Cost`.
    OutOfRange,
}

/// The real number `n / d`.
pub open spec fn ratio(n: int, d: int) -> real {
    n as real / d as real
}

/// The numerators and denominators that a `Cost` can hold.
pub open spec fn in_range(n: int, d: int) -> bool {
    1 <= d <= i64::MAX && -i64::MAX <= n <= i64::MAX
}

/// `q` is the value of some `Cost`.
pub open spec fn representable(q: real) -> bool {
    exists|n: int, d: int| in_range(n, d) && q == #[trigger] ratio(n, d)
}

/// What a computation whose exact result is `q` returns.
pub open spec fn checked(q: real) -> Result<real, SplitError> {
    if representable(q) {
        Ok(q)
    } else {
        Err(SplitError::OutOfRange)
    }
}

/// The result of a computation with the amount replaced by its value.
pub open spec fn outcome(r: Result<Cost, SplitError>) -> Result<real, SplitError> {
    match r {
        Ok(c) => Ok(c@),
        Err(e) => Err(e),
    }
}

/// An exact amount in cents: the fraction `num / den` in lowest terms.
#[derive(Clone, Copy, PartialEq, Eq, Structural, Debug)]
pub struct Cost {
    num: i64,
    den: i64,
}

impl View for Cost {
    type V = real;

    closed spec fn view(&self) -> real {
        ratio(self.num as int, self.den as int)
    }
}

/// Equal fractions have equal cross products, and the other way round.
pub proof fn lemma_ratio_eq(a: int, b: int, c: int, d: int)
    requires
        b > 0,
        d > 0,
    ensures
        ratio(a, b) == ratio(c, d) <==> a * d == c * b,
{
    assert(ratio(a, b) == ratio(c, d) <==> a * d == c * b) by (nonlinear_arith)
        requires
            b > 0,
            d > 0,
    ;
}

/// A fraction keeps its value when numerator and denominator are multiplied
/// by the same positive number.
proof fn lemma_ratio_scale(n: int, d: int, g: int)
    requires
        d > 0,
        g > 0,
    ensures
        ratio(g * n, g * d) == ratio(n, d),
{
    assert(g * d > 0) by (nonlinear_arith)
        requires
            d > 0,
            g > 0,
    ;
    assert((g * n) * d == n * (g * d)) by (nonlinear_arith);
    lemma_ratio_eq(g * n, g * d, n, d);
}

/// The product of two integers of a `Cost` stays far inside 128 bits.
proof fn lemma_product_bound(x: int, y: int)
    requires
        -i64::MAX <= x <= i64::MAX,
        -i64::MAX <= y <= i64::MAX,
    ensures
        -0x3fff_ffff_ffff_ffff_0000_0000_0000_0001 <= x * y
            <= 0x3fff_ffff_ffff_ffff_0000_0000_0000_0001,
{
    assert(-0x3fff_ffff_ffff_ffff_0000_0000_0000_0001 <= x * y
        <= 0x3fff_ffff_ffff_ffff_0000_0000_0000_0001) by (nonlinear_arith)
        requires
            -0x7fff_ffff_ffff_ffff <= x <= 0x7fff_ffff_ffff_ffff,
            -0x7fff_ffff_ffff_ffff <= y <= 0x7fff_ffff_ffff_ffff,
    ;
}

/// The amount shown for the value whose floor is `cents`: nothing below zero,
/// and at most what 32 bits hold.
pub open spec fn saturate(cents: int) -> u32 {
    if cents < 0 {
        0
    } else if cents > u32::MAX {
        u32::MAX
    } else {
        cents as u32
    }
}

/// An amount of whole cents as dollars, a point and two digits of cents.
pub open spec fn render_cents(cents: nat) -> Seq<char> {
    decimal(cents / 100) + seq!['.'] + two_digits(cents % 100)
}

/// The fraction `n / d` written out: a sign if it is negative, the numerator,
/// and unless the denominator is 1 a slash and the denominator.
pub open spec fn render_fraction(n: int, d: int) -> Seq<char> {
    let sign = if n < 0 {
        seq!['-']
    } else {
        Seq::<char>::empty()
    };
    let tail = if d == 1 {
        Seq::<char>::empty()
    } else {
        seq!['/'] + decimal(d as nat)
    };
    sign + decimal(magnitude(n)) + tail
}

/// The numerator and the denominator of `q` written in lowest terms.
pub open spec fn fraction_of(q: real) -> (int, int) {
    choose|n: int, d: int| lowest_terms(n, d) && q == #[trigger] ratio(n, d)
}

/// The exact value `q` written out as a fraction in lowest terms.
pub open spec fn render_exact(q: real) -> Seq<char> {
    render_fraction(fraction_of(q).0, fraction_of(q).1)
}

impl Cost {
    /// Every `Cost` is in range and in lowest terms.
    #[verifier::type_invariant]
    pub closed spec fn wf(self) -> bool {
        in_range(self.num as int, self.den as int) && lowest_terms(
            self.num as int,
            self.den as int,
        )
    }

    /// A fraction within range is the value of some amount.
    pub proof fn lemma_in_range_representable(n: int, d: int)
        requires
            in_range(n, d),
        ensures
            representable(ratio(n, d)),
    {
    }

    /// The value of a well-formed amount is representable.
    pub proof fn lemma_representable(self)
        requires
            self.wf(),
        ensures
            representable(self@),
    {
        assert(in_range(self.num as int, self.den as int) && self@ == ratio(
            self.num as int,
            self.den as int,
        ));
    }

    /// Two well-formed amounts are the same value exactly when they have the
    /// same value as real numbers.
    pub proof fn lemma_equal_values(self, other: Cost)
        requires
            self.wf(),
            other.wf(),
        ensures
            (self == other) <==> (self@ == other@),
    {
        if self@ == other@ {
            lemma_ratio_eq(
                self.num as int,
                self.den as int,
                other.num as int,
                other.den as int,
            );
            lemma_lowest_terms_unique(
                self.num as int,
                self.den as int,
                other.num as int,
                other.den as int,
            );
        }
    }

    /// The amount of the fraction `n / d` in lowest terms, if it has one.
    fn from_parts(n: i128, d: i128) -> (r: Result<Cost, SplitError>)
        requires
            d > 0,
            n > i128::MIN,
        ensures
            outcome(r) == checked(ratio(n as int, d as int)),
    {
        let negative = n < 0;
        let m: u128 = if negative {
            (-n) as u128
        } else {
            n as u128
        };
        let du: u128 = d as u128;
        let g = greatest_common_divisor(m, du);
        proof {
            lemma_quotients_coprime(m as nat, du as nat);
        }
        let rm: u128 = m / g;
        let rd: u128 = du / g;
        let ghost rn: int = if negative {
            -(rm as int)
        } else {
            rm as int
        };
        proof {
            assert(m == g * rm && du == g * rd && rd > 0) by (nonlinear_arith)
                requires
                    g > 0,
                    m % g == 0,
                    du % g == 0,
                    rm == m / g,
                    rd == du / g,
                    du > 0,
            ;
            assert(n as int == g * rn) by (nonlinear_arith)
                requires
                    m == g * rm,
                    rn == if negative {
                        -(rm as int)
                    } else {
                        rm as int
                    },
                    n as int == if negative {
                        -(m as int)
                    } else {
                        m as int
                    },
            ;
            lemma_ratio_scale(rn, rd as int, g as int);
            assert(magnitude(rn) == rm);
            assert(lowest_terms(rn, rd as int));
        }
        if rm <= 9223372036854775807u128 && rd <= 9223372036854775807u128 {
            let num: i64 = if negative {
                -(rm as i64)
            } else {
                rm as i64
            };
            let c = Cost { num, den: rd as i64 };
            proof {
                assert(in_range(rn, rd as int));
                assert(c@ == ratio(rn, rd as int));
            }
            Ok(c)
        } else {
            proof {
                assert forall|n2: int, d2: int| in_range(n2, d2) implies ratio(n as int, d as int)
                    != #[trigger] ratio(n2, d2) by {
                    if ratio(n2, d2) == ratio(rn, rd as int) {
                        lemma_ratio_eq(n2, d2, rn, rd as int);
                        lemma_lowest_terms_least(n2, d2, rn, rd as int);
                    }
                }
            }
            Err(SplitError::OutOfRange)
        }
    }

    /// The amount of `n` whole cents.
    pub fn integer(n: u32) -> (r: Cost)
        ensures
            r@ == n as real,
    {
        proof {
            assert(gcd(n as nat, 1) == 1) by {
                reveal_with_fuel(gcd, 3);
            }
            assert(ratio(n as int, 1) == n as real) by (nonlinear_arith);
        }
        Cost { num: n as i64, den: 1 }
    }

    /// The amount `num / den` cents.
    pub fn fraction(num: i64, den: i64) -> (r: Result<Cost, SplitError>)
        ensures
            outcome(r) == if den == 0 {
                Err(SplitError::DivisionByZero)
            } else {
                checked(ratio(num as int, den as int))
            },
    {
        if den == 0 {
            Err(SplitError::DivisionByZero)
        } else if den > 0 {
            Cost::from_parts(num as i128, den as i128)
        } else {
            proof {
                assert(ratio(-(num as int), -(den as int)) == ratio(num as int, den as int))
                    by (nonlinear_arith)
                    requires
                        den < 0,
                ;
            }
            Cost::from_parts(-(num as i128), -(den as i128))
        }
    }

    /// No money at all.
    pub fn zero() -> (r: Cost)
        ensures
            r@ == 0real,
    {
        Cost::integer(0)
    }

    /// The neutral multiplier.
    pub fn one() -> (r: Cost)
        ensures
            r@ == 1real,
    {
        Cost::integer(1)
    }

    /// The numerator of the amount written in lowest terms.
    pub fn numerator(&self) -> (n: i64)
        ensures
            n == fraction_of(self@).0,
    {
        proof {
            use_type_invariant(self);
            self.lemma_own_fraction();
        }
        self.num
    }

    /// The denominator of the amount written in lowest terms.
    pub fn denominator(&self) -> (d: i64)
        ensures
            d == fraction_of(self@).1,
    {
        proof {
            use_type_invariant(self);
            self.lemma_own_fraction();
        }
        self.den
    }

    /// The value of an amount, written in lowest terms, is a fraction that
    /// an amount can hold.
    pub proof fn lemma_fraction(self)
        requires
            self.wf(),
        ensures
            self@ == ratio(fraction_of(self@).0, fraction_of(self@).1),
            in_range(fraction_of(self@).0, fraction_of(self@).1),
            lowest_terms(fraction_of(self@).0, fraction_of(self@).1),
    {
        self.lemma_own_fraction();
    }

    /// The fraction that an amount holds is its value written in lowest
    /// terms.
    proof fn lemma_own_fraction(self)
        requires
            self.wf(),
        ensures
            fraction_of(self@) == (self.num as int, self.den as int),
    {
        let (n, d) = fraction_of(self@);
        assert(lowest_terms(self.num as int, self.den as int) && self@ == ratio(
            self.num as int,
            self.den as int,
        ));
        lemma_ratio_eq(n, d, self.num as int, self.den as int);
        lemma_lowest_terms_unique(n, d, self.num as int, self.den as int);
    }

    /// The sum of two amounts.
    pub fn add(self, other: Cost) -> (r: Result<Cost, SplitError>)
        ensures
            outcome(r) == checked(self@ + other@),
    {
        proof {
            use_type_invariant(&self);
            use_type_invariant(&other);
            lemma_product_bound(self.num as int, other.den as int);
            lemma_product_bound(other.num as int, self.den as int);
            lemma_product_bound(self.den as int, other.den as int);
            assert(self.den * other.den > 0) by (nonlinear_arith)
                requires
                    self.den > 0,
                    other.den > 0,
            ;
            assert(ratio(self.num as int, self.den as int) + ratio(
                other.num as int,
                other.den as int,
            ) == ratio(self.num * other.den + other.num * self.den, self.den * other.den))
                by (nonlinear_arith)
                requires
                    self.den > 0,
                    other.den > 0,
            ;
        }
        let n: i128 = (self.num as i128) * (other.den as i128) + (other.num as i128) * (
        self.den as i128);
        let d: i128 = (self.den as i128) * (other.den as i128);
        Cost::from_parts(n, d)
    }

    /// The difference of two amounts.
    pub fn sub(self, other: Cost) -> (r: Result<Cost, SplitError>)
        ensures
            outcome(r) == checked(self@ - other@),
    {
        proof {
            use_type_invariant(&self);
            use_type_invariant(&other);
            lemma_product_bound(self.num as int, other.den as int);
            lemma_product_bound(other.num as int, self.den as int);
            lemma_product_bound(self.den as int, other.den as int);
            assert(self.den * other.den > 0) by (nonlinear_arith)
                requires
                    self.den > 0,
                    other.den > 0,
            ;
            assert(ratio(self.num as int, self.den as int) - ratio(
                other.num as int,
                other.den as int,
            ) == ratio(self.num * other.den - other.num * self.den, self.den * other.den))
                by (nonlinear_arith)
                requires
                    self.den > 0,
                    other.den > 0,
            ;
        }
        let n: i128 = (self.num as i128) * (other.den as i128) - (other.num as i128) * (
        self.den as i128);
        let d: i128 = (self.den as i128) * (other.den as i128);
        Cost::from_parts(n, d)
    }

    /// The product of two amounts.
    pub fn mul(self, other: Cost) -> (r: Result<Cost, SplitError>)
        ensures
            outcome(r) == checked(self@ * other@),
    {
        proof {
            use_type_invariant(&self);
            use_type_invariant(&other);
            lemma_product_bound(self.num as int, other.num as int);
            lemma_product_bound(self.den as int, other.den as int);
            assert(self.den * other.den > 0) by (nonlinear_arith)
                requires
                    self.den > 0,
                    other.den > 0,
            ;
            assert(ratio(self.num as int, self.den as int) * ratio(
                other.num as int,
                other.den as int,
            ) == ratio(self.num * other.num, self.den * other.den)) by (nonlinear_arith)
                requires
                    self.den > 0,
                    other.den > 0,
            ;
        }
        let n: i128 = (self.num as i128) * (other.num as i128);
        let d: i128 = (self.den as i128) * (other.den as i128);
        Cost::from_parts(n, d)
    }

    /// The quotient of two amounts.
    pub fn div(self, other: Cost) -> (r: Result<Cost, SplitError>)
        ensures
            outcome(r) == if other@ == 0real {
                Err(SplitError::DivisionByZero)
            } else {
                checked(self@ / other@)
            },
    {
        proof {
            use_type_invariant(&self);
            use_type_invariant(&other);
            lemma_product_bound(self.num as int, other.den as int);
            lemma_product_bound(self.den as int, other.num as int);
            assert(other@ == 0real <==> other.num == 0) by (nonlinear_arith)
                requires
                    other@ == ratio(other.num as int, other.den as int),
                    other.den > 0,
            ;
        }
        if other.num == 0 {
            Err(SplitError::DivisionByZero)
        } else if other.num > 0 {
            proof {
                assert(self.den * other.num > 0) by (nonlinear_arith)
                    requires
                        self.den > 0,
                        other.num > 0,
                ;
                assert(ratio(self.num as int, self.den as int) / ratio(
                    other.num as int,
                    other.den as int,
                ) == ratio(self.num * other.den, self.den * other.num)) by (nonlinear_arith)
                    requires
                        self.den > 0,
                        other.den > 0,
                        other.num > 0,
                ;
            }
            let n: i128 = (self.num as i128) * (other.den as i128);
            let d: i128 = (self.den as i128) * (other.num as i128);
            Cost::from_parts(n, d)
        } else {
            proof {
                assert(-(self.den * other.num) > 0) by (nonlinear_arith)
                    requires
                        self.den > 0,
                        other.num < 0,
                ;
                assert(ratio(self.num as int, self.den as int) / ratio(
                    other.num as int,
                    other.den as int,
                ) == ratio(-(self.num * other.den), -(self.den * other.num))) by (nonlinear_arith)
                    requires
                        self.den > 0,
                        other.den > 0,
                        other.num < 0,
                ;
            }
            let n: i128 = -((self.num as i128) * (other.den as i128));
            let d: i128 = -((self.den as i128) * (other.num as i128));
            Cost::from_parts(n, d)
        }
    }

    /// Adds `other` to this amount in place; on failure the amount is left as
    /// it was.
    pub fn add_assign(&mut self, other: Cost) -> (r: Result<(), SplitError>)
        ensures
            match r {
                Ok(_) => checked(old(self)@ + other@) == Ok::<real, SplitError>(final(self)@),
                Err(e) => checked(old(self)@ + other@) == Err::<real, SplitError>(e)
                    && *final(self) == *old(self),
            },
    {
        match self.add(other) {
            Ok(sum) => {
                *self = sum;
                Ok(())
            },
            Err(e) => Err(e),
        }
    }

    /// Whether two amounts are the same value.
    pub fn same(&self, other: &Cost) -> (r: bool)
        ensures
            r == (self@ == other@),
    {
        proof {
            use_type_invariant(self);
            use_type_invariant(other);
            self.lemma_equal_values(*other);
        }
        self.num == other.num && self.den == other.den
    }

    /// The whole cents of the amount: its value rounded down, but never less
    /// than zero nor more than 32 bits hold.
    pub fn whole_cents(&self) -> (r: u32)
        ensures
            r == saturate(self@.floor()),
    {
        proof {
            use_type_invariant(self);
            assert(ratio(self.num as int, self.den as int).floor() == self.num as int
                / self.den as int) by (nonlinear_arith)
                requires
                    self.den > 0,
            ;
            assert(self.num < 0 ==> (self.num as int) / (self.den as int) < 0)
                by (nonlinear_arith)
                requires
                    self.den > 0,
            ;
        }
        if self.num < 0 {
            0
        } else {
            let q: i64 = self.num / self.den;
            if q > 4294967295i64 {
                4294967295u32
            } else {
                q as u32
            }
        }
    }

    /// The amount as text: its whole cents as dollars and cents. The fraction
    /// of a cent is cut off, not rounded.
    pub open spec fn rendered(self) -> Seq<char> {
        render_cents(saturate(self@.floor()) as nat)
    }

    /// Renders the amount as dollars and cents.
    pub fn to_string(&self) -> (s: String)
        ensures
            s@ == self.rendered(),
    {
        let cents = self.whole_cents();
        let mut s = String::new();
        push_decimal(&mut s, (cents / 100) as u64);
        s.append(".");
        push_two_digits(&mut s, (cents % 100) as u8);
        proof {
            reveal_strlit(".");
            assert("."@ =~= seq!['.']);
            assert(s@ =~= self.rendered());
        }
        s
    }

    /// Renders the exact value as a fraction in lowest terms.
    pub fn to_fraction_string(&self) -> (s: String)
        ensures
            s@ == render_exact(self@),
    {
        proof {
            use_type_invariant(self);
            self.lemma_own_fraction();
            reveal_strlit("-");
            reveal_strlit("/");
            assert("-"@ =~= seq!['-']);
            assert("/"@ =~= seq!['/']);
        }
        let mut s = String::new();
        if self.num < 0 {
            s.append("-");
            push_decimal(&mut s, (-self.num) as u64);
        } else {
            push_decimal(&mut s, self.num as u64);
        }
        if self.den != 1 {
            s.append("/");
            push_decimal(&mut s, self.den as u64);
        }
        assert(s@ =~= render_fraction(self.num as int, self.den as int));
        s
    }
}

} // verus!
