use receipts::cost::{Cost, SplitError};
use receipts::item::Item;
use receipts::person::Person;

fn frac(n: i64, d: i64) -> Cost {
    Cost::fraction(n, d).unwrap()
}

fn items() -> Vec<Item> {
    let mut pizza =
        Item::new_with_all("Pizza".to_string(), Cost::integer(1000), frac(108, 100), frac(115, 100));
    pizza.set_share(0, Cost::one());
    pizza.set_share(1, Cost::one());
    let mut water = Item::new_with_name_cost("Water".to_string(), Cost::integer(250));
    water.set_share(0, Cost::integer(1));
    water.set_share(1, Cost::integer(2));
    vec![pizza, water]
}

#[test]
fn add_item_is_idempotent() {
    let mut p = Person::new_with_name("Alice".to_string());
    assert_eq!(p.item_count(), 0);
    p.add_item(3);
    p.add_item(1);
    p.add_item(3);
    assert_eq!(p.item_count(), 2);
    assert_eq!(p.name(), "Alice");
    assert_eq!(Person::new().name(), "");
}

#[test]
fn total_adds_up_the_parts() {
    let items = items();
    let mut alice = Person::new_with_name("Alice".to_string());
    assert_eq!(alice.total(0, &items), Ok(Cost::zero()));
    alice.add_item(0);
    assert_eq!(alice.total(0, &items), Ok(Cost::integer(621)));
    alice.add_item(1);
    assert_eq!(alice.total(0, &items), Ok(frac(621 * 3 + 250, 3)));
    let mut bob = Person::new_with_name("Bob".to_string());
    bob.add_item(1);
    bob.add_item(0);
    assert_eq!(bob.total(1, &items), Ok(frac(621 * 3 + 500, 3)));
}

#[test]
fn total_fails_where_a_part_cannot_be_computed() {
    let mut items = items();
    items[1].set_share(0, Cost::zero());
    items[1].set_share(1, Cost::zero());
    let mut alice = Person::new_with_name("Alice".to_string());
    alice.add_item(0);
    alice.add_item(1);
    assert_eq!(alice.total(0, &items), Err(SplitError::NoShares));
    assert_eq!(alice.to_string(0, &items), Err(SplitError::NoShares));
}

#[test]
fn person_is_rendered_with_the_breakdown() {
    let items = items();
    let mut alice = Person::new_with_name("Alice".to_string());
    assert_eq!(alice.to_string(0, &items), Ok("Alice(0.00)\n".to_string()));
    alice.add_item(1);
    alice.add_item(0);
    assert_eq!(
        alice.to_string(0, &items),
        Ok("Alice(7.04)\nWater(0.83), Pizza(6.21), ".to_string())
    );
}

#[test]
fn people_are_the_same_by_name() {
    let mut a = Person::new_with_name("Alice".to_string());
    a.add_item(0);
    let b = Person::new_with_name("Alice".to_string());
    let c = Person::new_with_name("alice".to_string());
    assert!(a.eq(&b));
    assert!(!a.eq(&c));
}
