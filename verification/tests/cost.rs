use receipts::cost::{Cost, SplitError};

fn frac(n: i64, d: i64) -> Cost {
    Cost::fraction(n, d).unwrap()
}

#[test]
fn formats_with_truncated_fraction_of_a_cent() {
    assert_eq!(frac(19996, 10).to_string(), "19.99");
    assert_eq!(frac(19999, 1000).to_string(), "0.19");
}

#[test]
fn formats_small_amount_with_leading_zero() {
    assert_eq!(Cost::integer(5).to_string(), "0.05");
    assert_eq!(Cost::integer(0).to_string(), "0.00");
    assert_eq!(Cost::integer(100).to_string(), "1.00");
    assert_eq!(Cost::integer(1242).to_string(), "12.42");
    assert_eq!(Cost::integer(u32::MAX).to_string(), "42949672.95");
}

#[test]
fn whole_cents_round_down_and_saturate() {
    assert_eq!(frac(19996, 10).whole_cents(), 1999);
    assert_eq!(frac(1, 2).whole_cents(), 0);
    assert_eq!(frac(-1, 2).whole_cents(), 0);
    assert_eq!(frac(-500, 1).whole_cents(), 0);
    assert_eq!(frac(4294967295, 1).whole_cents(), u32::MAX);
    assert_eq!(frac(4294967296, 1).whole_cents(), u32::MAX);
    assert_eq!(frac(i64::MAX, 1).whole_cents(), u32::MAX);
    assert_eq!(frac(-7, 1).to_string(), "0.00");
}

#[test]
fn fraction_is_kept_in_lowest_terms() {
    let m = frac(50, -100);
    assert_eq!(m.numerator(), -1);
    assert_eq!(m.denominator(), 2);
    let z = frac(0, 17);
    assert_eq!(z.numerator(), 0);
    assert_eq!(z.denominator(), 1);
    assert_eq!(frac(108, 100), frac(27, 25));
    assert!(frac(108, 100).same(&frac(54, 50)));
    assert!(!frac(108, 100).same(&frac(109, 100)));
}

#[test]
fn fraction_rejects_zero_denominator_and_what_does_not_fit() {
    assert_eq!(Cost::fraction(1, 0), Err(SplitError::DivisionByZero));
    assert_eq!(Cost::fraction(0, 0), Err(SplitError::DivisionByZero));
    assert_eq!(Cost::fraction(i64::MIN, 1), Err(SplitError::OutOfRange));
    assert_eq!(Cost::fraction(1, i64::MIN), Err(SplitError::OutOfRange));
    assert_eq!(Cost::fraction(i64::MIN, i64::MIN), Ok(Cost::one()));
    assert_eq!(Cost::fraction(i64::MIN, 2), Ok(frac(-4611686018427387904, 1)));
    assert_eq!(Cost::fraction(i64::MAX, i64::MAX), Ok(Cost::one()));
}

#[test]
fn arithmetic_is_exact() {
    let third = frac(1, 3);
    let sum = third.add(third).unwrap().add(third).unwrap();
    assert_eq!(sum, Cost::one());
    assert_eq!(frac(1, 2).add(frac(1, 3)), Ok(frac(5, 6)));
    assert_eq!(frac(1, 2).sub(frac(1, 3)), Ok(frac(1, 6)));
    assert_eq!(frac(1, 3).sub(frac(1, 2)), Ok(frac(-1, 6)));
    assert_eq!(frac(2, 3).mul(frac(3, 4)), Ok(frac(1, 2)));
    assert_eq!(frac(2, 3).div(frac(4, 3)), Ok(frac(1, 2)));
    assert_eq!(frac(2, 3).div(frac(-4, 3)), Ok(frac(-1, 2)));
    assert_eq!(frac(-2, 3).div(frac(-4, 3)), Ok(frac(1, 2)));
    assert_eq!(Cost::integer(1000).mul(frac(108, 100)).unwrap().mul(frac(115, 100)), Ok(Cost::integer(1242)));
    assert_eq!(Cost::integer(1242).div(Cost::integer(2)), Ok(Cost::integer(621)));
}

#[test]
fn division_by_zero_is_reported() {
    assert_eq!(Cost::integer(5).div(Cost::zero()), Err(SplitError::DivisionByZero));
    assert_eq!(Cost::zero().div(Cost::zero()), Err(SplitError::DivisionByZero));
    assert_eq!(Cost::zero().div(Cost::integer(5)), Ok(Cost::zero()));
}

#[test]
fn results_that_do_not_fit_are_reported() {
    let big = frac(i64::MAX, 1);
    let tiny = frac(1, i64::MAX);
    assert_eq!(big.add(Cost::one()), Err(SplitError::OutOfRange));
    assert_eq!(big.sub(Cost::one()), Ok(frac(i64::MAX - 1, 1)));
    assert_eq!(frac(-i64::MAX, 1).sub(Cost::one()), Err(SplitError::OutOfRange));
    assert_eq!(big.mul(frac(2, 1)), Err(SplitError::OutOfRange));
    assert_eq!(big.mul(big), Err(SplitError::OutOfRange));
    assert_eq!(tiny.mul(tiny), Err(SplitError::OutOfRange));
    assert_eq!(tiny.div(big), Err(SplitError::OutOfRange));
    assert_eq!(big.mul(tiny), Ok(Cost::one()));
    assert_eq!(big.div(big), Ok(Cost::one()));
    assert_eq!(tiny.add(tiny), Ok(frac(2, i64::MAX)));
    assert_eq!(frac(1, i64::MAX).add(frac(1, i64::MAX - 1)), Err(SplitError::OutOfRange));
    assert_eq!(big.sub(big), Ok(Cost::zero()));
}

#[test]
fn add_assign_adds_in_place_or_leaves_alone() {
    let mut m = frac(1, 2);
    assert_eq!(m.add_assign(frac(1, 4)), Ok(()));
    assert_eq!(m, frac(3, 4));
    let mut big = frac(i64::MAX, 1);
    assert_eq!(big.add_assign(Cost::one()), Err(SplitError::OutOfRange));
    assert_eq!(big, frac(i64::MAX, 1));
}

#[test]
fn exact_value_is_written_as_a_fraction() {
    assert_eq!(Cost::integer(2).to_fraction_string(), "2");
    assert_eq!(frac(1, 3).to_fraction_string(), "1/3");
    assert_eq!(frac(-10, 4).to_fraction_string(), "-5/2");
    assert_eq!(Cost::zero().to_fraction_string(), "0");
    assert_eq!(frac(i64::MAX, 1).to_fraction_string(), "9223372036854775807");
    assert_eq!(frac(-i64::MAX, 1).to_fraction_string(), "-9223372036854775807");
}

#[test]
fn zero_and_one_are_what_they_say() {
    assert_eq!(Cost::zero(), Cost::integer(0));
    assert_eq!(Cost::one(), Cost::integer(1));
    assert_eq!(Cost::one().numerator(), 1);
    assert_eq!(Cost::one().denominator(), 1);
}
