use receipts::cost::{Cost, SplitError};
use receipts::item::Item;
use receipts::person::Person;

fn frac(n: i64, d: i64) -> Cost {
    Cost::fraction(n, d).unwrap()
}

fn pizza() -> Item {
    Item::new_with_all("Pizza".to_string(), Cost::integer(1000), frac(108, 100), frac(115, 100))
}

#[test]
fn total_is_cost_with_tax_and_tip() {
    assert_eq!(pizza().total(), Ok(Cost::integer(1242)));
    let plain = Item::new_with_name_cost("Water".to_string(), Cost::integer(250));
    assert_eq!(plain.total(), Ok(Cost::integer(250)));
    assert_eq!(Item::new().total(), Ok(Cost::zero()));
}

#[test]
fn tax_and_tip_of_an_item() {
    let item = pizza();
    assert_eq!(item.total_tax(), Ok(Cost::integer(80)));
    assert_eq!(item.total_tip(), Ok(Cost::integer(162)));
    let plain = Item::new_with_name_cost("Water".to_string(), Cost::integer(250));
    assert_eq!(plain.total_tax(), Ok(Cost::zero()));
    assert_eq!(plain.total_tip(), Ok(Cost::zero()));
    let low = Item::new_with_all("Odd".to_string(), Cost::integer(100), frac(8, 100), Cost::one());
    assert_eq!(low.total_tax(), Ok(frac(-92, 1)));
}

#[test]
fn equal_weights_split_evenly() {
    let mut item = pizza();
    item.set_share(0, Cost::one());
    item.set_share(1, Cost::one());
    assert_eq!(item.total_weight(), Ok(Cost::integer(2)));
    assert_eq!(item.cost_per_share(), Ok(Cost::integer(621)));
    assert_eq!(item.cost_per_person(0), Ok(Cost::integer(621)));
    assert_eq!(item.cost_per_person(1), Ok(Cost::integer(621)));
}

#[test]
fn weights_two_and_one_split_two_to_one() {
    let mut item = pizza();
    item.set_share(7, Cost::integer(2));
    item.set_share(3, Cost::integer(1));
    assert_eq!(item.cost_per_share(), Ok(Cost::integer(414)));
    assert_eq!(item.cost_per_person(7), Ok(Cost::integer(828)));
    assert_eq!(item.cost_per_person(3), Ok(Cost::integer(414)));
    let mut odd = Item::new_with_name_cost("Odd".to_string(), Cost::integer(100));
    odd.set_share(0, Cost::integer(2));
    odd.set_share(1, Cost::integer(1));
    assert_eq!(odd.cost_per_person(0), Ok(frac(200, 3)));
    assert_eq!(odd.cost_per_person(1), Ok(frac(100, 3)));
    let sum = odd.cost_per_person(0).unwrap().add(odd.cost_per_person(1).unwrap());
    assert_eq!(sum, odd.total());
}

#[test]
fn set_share_overwrites_an_earlier_share() {
    let mut item = pizza();
    item.set_share(0, Cost::one());
    item.set_share(1, Cost::one());
    item.set_share(0, Cost::integer(3));
    assert_eq!(item.share_count(), 2);
    assert_eq!(item.total_weight(), Ok(Cost::integer(4)));
    assert_eq!(item.cost_per_person(0), Ok(frac(1242 * 3, 4)));
    assert!(item.has_share(0));
    assert!(item.has_share(1));
    assert!(!item.has_share(2));
}

#[test]
fn an_item_without_weight_has_no_cost_per_share() {
    let item = pizza();
    assert_eq!(item.cost_per_share(), Err(SplitError::NoShares));
    let mut zero = pizza();
    zero.set_share(0, Cost::zero());
    assert_eq!(zero.cost_per_share(), Err(SplitError::NoShares));
    assert_eq!(zero.cost_per_person(0), Err(SplitError::NoShares));
    let mut cancel = pizza();
    cancel.set_share(0, Cost::one());
    cancel.set_share(1, frac(-1, 1));
    assert_eq!(cancel.cost_per_person(1), Err(SplitError::NoShares));
    assert_eq!(cancel.all_costs_per_person(), Err(SplitError::NoShares));
    assert_eq!(item.all_costs_per_person(), Err(SplitError::NoShares));
}

#[test]
fn item_sums_out_of_range_are_reported() {
    let mut item = pizza();
    item.set_share(0, frac(i64::MAX, 1));
    item.set_share(1, Cost::one());
    assert_eq!(item.total_weight(), Err(SplitError::OutOfRange));
    assert_eq!(item.cost_per_share(), Err(SplitError::OutOfRange));
    let huge = Item::new_with_all("Huge".to_string(), Cost::integer(2), frac(i64::MAX, 1), Cost::one());
    assert_eq!(huge.total(), Err(SplitError::OutOfRange));
    assert_eq!(huge.total_tip(), Err(SplitError::OutOfRange));
    assert_eq!(huge.total_tax(), Err(SplitError::OutOfRange));
}

#[test]
fn all_costs_follow_the_order_of_the_shares() {
    let mut item = pizza();
    item.set_share(4, Cost::integer(2));
    item.set_share(2, Cost::integer(1));
    let costs = item.all_costs_per_person().unwrap();
    assert_eq!(costs, vec![(4, Cost::integer(828)), (2, Cost::integer(414))]);
}

#[test]
fn items_are_the_same_purchase_by_name_rates_and_cost() {
    let a = pizza();
    let mut b = pizza();
    b.set_share(0, Cost::one());
    assert!(a.eq(&b));
    let c = Item::new_with_all("Pizza".to_string(), Cost::integer(1000), frac(108, 100), Cost::one());
    assert!(!a.eq(&c));
    let d = Item::new_with_all("Pasta".to_string(), Cost::integer(1000), frac(108, 100), frac(115, 100));
    assert!(!a.eq(&d));
    let e = Item::new_with_all("Pizza".to_string(), Cost::integer(1001), frac(108, 100), frac(115, 100));
    assert!(!a.eq(&e));
}

#[test]
fn rates_are_taken_over_only_where_they_were_not_neutral() {
    let mut taxed = pizza();
    taxed.apply_tax_rate(frac(110, 100));
    taxed.apply_tip_rate(frac(120, 100));
    assert_eq!(taxed.tax_rate(), frac(11, 10));
    assert_eq!(taxed.tip_rate(), frac(6, 5));
    let mut plain = Item::new_with_name_cost("Water".to_string(), Cost::integer(250));
    plain.apply_tax_rate(frac(110, 100));
    plain.apply_tip_rate(frac(120, 100));
    assert_eq!(plain.tax_rate(), Cost::one());
    assert_eq!(plain.tip_rate(), Cost::one());
    assert_eq!(plain.cost(), Cost::integer(250));
    assert_eq!(plain.name(), "Water");
}

#[test]
fn item_is_rendered_with_its_shares() {
    let people = vec![
        Person::new_with_name("Alice".to_string()),
        Person::new_with_name("Bob".to_string()),
    ];
    let mut item = pizza();
    assert_eq!(item.to_string(&people), Ok("Item: Pizza 10.00\n".to_string()));
    item.set_share(1, Cost::integer(2));
    item.set_share(0, frac(1, 2));
    assert_eq!(
        item.to_string(&people),
        Ok("Item: Pizza 10.00\nBob(2,9.93), Alice(1/2,2.48), ".to_string())
    );
    item.set_share(1, Cost::zero());
    item.set_share(0, Cost::zero());
    assert_eq!(item.to_string(&people), Err(SplitError::NoShares));
}
