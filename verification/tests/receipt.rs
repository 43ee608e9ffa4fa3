use receipts::cost::{Cost, SplitError};
use receipts::receipt::Receipt;

fn frac(n: i64, d: i64) -> Cost {
    Cost::fraction(n, d).unwrap()
}

fn dinner() -> Receipt {
    let mut r = Receipt::new_with_name("Dinner".to_string());
    r.set_tax(frac(108, 100));
    r.set_tip_percent(frac(115, 100));
    assert!(r.add_item("Pizza".to_string(), 1000, true, true));
    assert!(r.add_person("Alice".to_string()));
    assert!(r.add_person("Bob".to_string()));
    r.set_share(0, 0, Cost::one());
    r.set_share(1, 0, Cost::one());
    r
}

#[test]
fn new_receipt_is_empty_with_neutral_rates() {
    let r = Receipt::new();
    assert_eq!(r.name(), "");
    assert_eq!(r.person_count(), 0);
    assert_eq!(r.item_count(), 0);
    assert_eq!(r.tax_rate(), Cost::one());
    assert_eq!(r.tip_rate(), Cost::one());
    assert_eq!(r.total_cost(), Ok(Cost::zero()));
    assert_eq!(r.total_paid(), Ok(Cost::zero()));
    assert_eq!(r.get_totals(), Ok(vec![]));
    assert_eq!(
        r.to_string(),
        Ok("\n\n\nSubtotal: 0.00\nTax: 0.00\nTip: 0.00\nTotal: 0.00\nPaid: 0.00".to_string())
    );
    assert_eq!(Receipt::new_with_name("Lunch".to_string()).name(), "Lunch");
}

#[test]
fn second_person_of_the_same_name_is_rejected() {
    let mut r = Receipt::new();
    assert!(r.add_person("Alice".to_string()));
    assert!(!r.add_person("Alice".to_string()));
    assert_eq!(r.person_count(), 1);
    assert!(r.add_person("alice".to_string()));
    assert_eq!(r.person_count(), 2);
}

#[test]
fn second_item_of_the_same_name_rates_and_cost_is_rejected() {
    let mut r = Receipt::new();
    r.set_tax(frac(108, 100));
    assert!(r.add_item("Pizza".to_string(), 1000, true, false));
    assert!(!r.add_item("Pizza".to_string(), 1000, true, false));
    assert!(!r.add_item("Pizza".to_string(), 1000, true, true));
    assert_eq!(r.item_count(), 1);
    assert!(r.add_item("Pizza".to_string(), 1000, false, false));
    assert!(r.add_item("Pizza".to_string(), 1001, true, false));
    assert_eq!(r.item_count(), 3);
}

#[test]
fn untaxed_item_keeps_the_neutral_rate() {
    let mut r = Receipt::new();
    r.set_tax(frac(105, 100));
    assert!(r.add_item("Bread".to_string(), 300, false, false));
    r.set_tax(frac(8, 100));
    assert_eq!(r.item(0).tax_rate(), Cost::one());
    assert_eq!(r.tax_rate(), frac(8, 100));
    assert_eq!(r.item(0).total(), Ok(Cost::integer(300)));
}

#[test]
fn taxed_item_takes_over_the_new_rate() {
    let mut r = Receipt::new();
    r.set_tax(frac(105, 100));
    assert!(r.add_item("Wine".to_string(), 2000, true, false));
    assert_eq!(r.item(0).tax_rate(), frac(105, 100));
    r.set_tax(frac(108, 100));
    assert_eq!(r.item(0).tax_rate(), frac(108, 100));
    assert_eq!(r.item(0).total(), Ok(Cost::integer(2160)));
    assert_eq!(r.item(0).tip_rate(), Cost::one());
}

#[test]
fn item_taxed_at_the_neutral_rate_does_not_follow_later_rates() {
    let mut r = Receipt::new();
    assert!(r.add_item("Wine".to_string(), 2000, true, true));
    r.set_tax(frac(108, 100));
    r.set_tip_percent(frac(115, 100));
    assert_eq!(r.item(0).tax_rate(), Cost::one());
    assert_eq!(r.item(0).tip_rate(), Cost::one());
}

#[test]
fn tipped_item_takes_over_the_new_rate_and_untipped_does_not() {
    let mut r = Receipt::new();
    r.set_tip_percent(frac(110, 100));
    assert!(r.add_item("Soup".to_string(), 500, false, true));
    assert!(r.add_item("Salt".to_string(), 100, false, false));
    r.set_tip_percent(frac(120, 100));
    assert_eq!(r.item(0).tip_rate(), frac(120, 100));
    assert_eq!(r.item(1).tip_rate(), Cost::one());
    assert_eq!(r.tip_rate(), frac(120, 100));
    assert_eq!(r.total_tip(), Ok(Cost::integer(100)));
}

#[test]
fn pizza_for_two() {
    let r = dinner();
    assert_eq!(r.item(0).total(), Ok(Cost::integer(1242)));
    assert_eq!(r.person_total(0), Ok(Cost::integer(621)));
    assert_eq!(r.person_total(1), Ok(Cost::integer(621)));
    assert_eq!(r.person_total(0).unwrap().to_string(), "6.21");
    assert_eq!(
        r.get_totals(),
        Ok(vec![("Alice".to_string(), 621), ("Bob".to_string(), 621)])
    );
    assert_eq!(r.sub_total(), Ok(Cost::integer(1000)));
    assert_eq!(r.total_tax(), Ok(Cost::integer(80)));
    assert_eq!(r.total_tip(), Ok(Cost::integer(162)));
    assert_eq!(r.total_cost(), Ok(Cost::integer(1242)));
    assert_eq!(r.total_paid(), Ok(Cost::integer(1242)));
}

#[test]
fn pizza_for_two_is_rendered() {
    let r = dinner();
    let expected = "Dinner\n\
                    0. Item: Pizza 10.00\nAlice(1,6.21), Bob(1,6.21), \n\
                    0. Alice(6.21)\nPizza(6.21), 1. Bob(6.21)\nPizza(6.21), \n\
                    Subtotal: 10.00\nTax: 0.80\nTip: 1.62\nTotal: 12.42\nPaid: 12.42";
    assert_eq!(r.to_string(), Ok(expected.to_string()));
}

#[test]
fn what_is_paid_is_what_it_costs() {
    let mut r = Receipt::new_with_name("Trip".to_string());
    r.set_tax(frac(10825, 10000));
    r.set_tip_percent(frac(118, 100));
    assert!(r.add_item("Fuel".to_string(), 7331, true, false));
    assert!(r.add_item("Food".to_string(), 4999, true, true));
    assert!(r.add_item("Toll".to_string(), 1100, false, false));
    assert!(r.add_person("Ann".to_string()));
    assert!(r.add_person("Ben".to_string()));
    assert!(r.add_person("Cy".to_string()));
    r.set_share(0, 0, Cost::integer(1));
    r.set_share(1, 0, Cost::integer(1));
    r.set_share(2, 0, Cost::integer(1));
    r.set_share(0, 1, Cost::integer(2));
    r.set_share(2, 1, frac(5, 7));
    r.set_share(1, 2, frac(1, 3));
    r.set_share(1, 2, frac(3, 11));
    r.set_share(2, 2, Cost::integer(4));
    let cost = r.total_cost().unwrap();
    let paid = r.total_paid().unwrap();
    assert_eq!(cost, paid);
    let by_hand = Cost::integer(7331)
        .mul(frac(10825, 10000))
        .unwrap()
        .add(Cost::integer(4999).mul(frac(10825, 10000)).unwrap().mul(frac(118, 100)).unwrap())
        .unwrap()
        .add(Cost::integer(1100))
        .unwrap();
    assert_eq!(cost, by_hand);
    let totals = r.get_totals().unwrap();
    assert_eq!(totals.len(), 3);
    let cents: u32 = totals.iter().map(|t| t.1).sum();
    assert!(cents <= cost.whole_cents());
    assert!(cents + 3 > cost.whole_cents());
}

#[test]
fn item_without_shares_is_not_paid_for() {
    let mut r = dinner();
    assert!(r.add_item("Bread".to_string(), 300, false, false));
    assert_eq!(r.total_cost(), Ok(Cost::integer(1542)));
    assert_eq!(r.total_paid(), Ok(Cost::integer(1242)));
    assert_eq!(r.item(1).cost_per_share(), Err(SplitError::NoShares));
}

#[test]
fn weights_that_add_up_to_zero_are_reported() {
    let mut r = dinner();
    r.set_share(0, 0, Cost::zero());
    r.set_share(1, 0, Cost::zero());
    assert_eq!(r.person_total(0), Err(SplitError::NoShares));
    assert_eq!(r.total_paid(), Err(SplitError::NoShares));
    assert_eq!(r.get_totals(), Err(SplitError::NoShares));
    assert_eq!(r.to_string(), Err(SplitError::NoShares));
    assert_eq!(r.total_cost(), Ok(Cost::integer(1242)));
}

#[test]
fn receipt_sums_out_of_range_are_reported() {
    let mut r = Receipt::new();
    r.set_tax(frac(i64::MAX, 1));
    assert!(r.add_item("Moon".to_string(), 2, true, false));
    assert!(r.add_person("Alice".to_string()));
    r.set_share(0, 0, Cost::one());
    assert_eq!(r.total_cost(), Err(SplitError::OutOfRange));
    assert_eq!(r.total_tax(), Err(SplitError::OutOfRange));
    assert_eq!(r.total_paid(), Err(SplitError::OutOfRange));
    assert_eq!(r.sub_total(), Ok(Cost::integer(2)));
    assert_eq!(r.to_string(), Err(SplitError::OutOfRange));
}

#[test]
fn set_share_links_person_and_item() {
    let mut r = dinner();
    assert!(r.item(0).has_share(0));
    assert!(r.item(0).has_share(1));
    assert_eq!(r.person(0).item_count(), 1);
    r.set_share(0, 0, Cost::integer(3));
    assert_eq!(r.person(0).item_count(), 1);
    assert_eq!(r.item(0).share_count(), 2);
    assert_eq!(r.person_total(0), Ok(frac(1242 * 3, 4)));
    assert_eq!(r.person_total(1), Ok(frac(1242, 4)));
    assert_eq!(r.get_totals(), Ok(vec![("Alice".to_string(), 931), ("Bob".to_string(), 310)]));
}
