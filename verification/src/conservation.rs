//! Splitting a receipt neither makes money nor loses any.

use crate::receipt::ReceiptView;
use crate::sums::{lemma_sum_agree, lemma_sum_exchange, lemma_sum_over_listed, sum_to};
use vstd::prelude::*;

verus! {

/// What person `p` owes on item `i`: their part if they list the item, and
/// nothing if they do not.
pub open spec fn owed(r: ReceiptView, p: int, i: int) -> real {
    if r.lists(p, i) {
        r.items[i].cost_per_person(p)
    } else {
        0real
    }
}

/// What a person owes is the sum, over all items of the receipt, of what
/// they owe on the item.
pub proof fn lemma_person_total_by_item(r: ReceiptView, p: int)
    requires
        r.wf(),
        0 <= p < r.people.len(),
    ensures
        r.person_total(p) == sum_to(|i: int| owed(r, p, i), r.items.len() as int),
{
    let person = r.people[p];
    assert(person.wf());
    let along = |j: int| r.items[person.items[j]].cost_per_person(p);
    assert forall|j: int| 0 <= j < person.items.len() implies 0 <= #[trigger] person.items[j]
        < r.items.len() by {
        assert(0 <= r.people[p].items[j] < r.items.len());
    }
    lemma_sum_over_listed(
        person.items,
        |i: int| r.items[i].cost_per_person(p),
        along,
        |i: int| owed(r, p, i),
        r.items.len() as int,
    );
    lemma_sum_agree(
        |j: int| r.items[person.items[j]].cost_per_person(p),
        along,
        person.items.len() as int,
    );
}

/// The fully loaded cost of an item is the sum, over all people of the
/// receipt, of what they owe on it, whenever its weights do not add up to
/// zero.
pub proof fn lemma_item_total_by_person(r: ReceiptView, i: int)
    requires
        r.wf(),
        0 <= i < r.items.len(),
        r.items[i].total_weight() != 0real,
    ensures
        r.items[i].total() == sum_to(|p: int| owed(r, p, i), r.people.len() as int),
{
    let item = r.items[i];
    assert(item.wf() && item.holders_among(r.people.len() as int));
    let holders = item.holders();
    let along = |k: int| item.cost_per_person(item.shares[k].person);
    assert forall|p: int| 0 <= p < r.people.len() implies (holders.contains(p) <==> r.lists(p, i)) by {
        assert(r.lists(p, i) <==> item.has_share(p));
        if holders.contains(p) {
            let k = choose|k: int| 0 <= k < holders.len() && holders[k] == p;
            assert(item.shares[k].person == p);
        }
        if item.has_share(p) {
            let k = item.slot(p);
            assert(holders[k] == p);
        }
    }
    assert forall|j: int, k: int| 0 <= j < k < holders.len() implies holders[j] != holders[k] by {
        assert(item.shares[j].person != item.shares[k].person);
    }
    assert forall|k: int| 0 <= k < holders.len() implies 0 <= #[trigger] holders[k]
        < r.people.len() by {
        assert(0 <= item.shares[k].person < r.people.len());
    }
    lemma_sum_over_listed(
        holders,
        |p: int| item.cost_per_person(p),
        along,
        |p: int| owed(r, p, i),
        r.people.len() as int,
    );
    item.lemma_parts_add_up();
    lemma_sum_agree(
        |k: int| item.cost_per_person(item.shares[k].person),
        along,
        item.shares.len() as int,
    );
}

/// Conservation: on a consistent receipt on which the weights of every item
/// add up to something other than zero, the people together owe exactly the
/// fully loaded cost of all items.
pub proof fn lemma_conservation(r: ReceiptView)
    requires
        r.wf(),
        r.fully_shared(),
    ensures
        r.total_paid() == r.total_cost(),
{
    let n_people = r.people.len() as int;
    let n_items = r.items.len() as int;
    let cell = |p: int, i: int| owed(r, p, i);
    let rows = |p: int| r.person_total(p);
    let columns = |i: int| r.items[i].total();
    assert forall|p: int| 0 <= p < n_people implies #[trigger] rows(p) == sum_to(
        |i: int| cell(p, i),
        n_items,
    ) by {
        lemma_person_total_by_item(r, p);
        lemma_sum_agree(|i: int| cell(p, i), |i: int| owed(r, p, i), n_items);
    }
    assert forall|i: int| 0 <= i < n_items implies #[trigger] columns(i) == sum_to(
        |p: int| cell(p, i),
        n_people,
    ) by {
        lemma_item_total_by_person(r, i);
        lemma_sum_agree(|p: int| cell(p, i), |p: int| owed(r, p, i), n_people);
    }
    lemma_sum_exchange(cell, rows, columns, n_people, n_items);
}

} // verus!
