//! `Receipt`: the people, the items and the rates of one shared bill, and
//! what everybody owes on it.

use crate::conservation::lemma_conservation;
use crate::cost::{outcome, saturate, Cost, SplitError};
use crate::item::{item_views, render_amount, Item, ItemView, ShareView};
use crate::person::{person_views, Person, PersonView};
use crate::sums::{
    accumulate, first_error, lemma_accumulate_failed, lemma_accumulate_ok,
    lemma_first_error_found, lemma_sum_agree, sum_to, value_or_zero,
};
use crate::text::{decimal, lemma_numbered_failed, numbered, push_decimal};
use vstd::prelude::*;
use vstd::string::StringExecFns;

verus! {

/// What a receipt is.
pub struct ReceiptView {
    pub name: Seq<char>,
    /// The people, in the order in which they were added.
    pub people: Seq<PersonView>,
    /// The items, in the order in which they were added.
    pub items: Seq<ItemView>,
    /// The tax multiplier that taxed items carry; 1 means no tax.
    pub tax_rate: real,
    /// The tip multiplier that tipped items carry; 1 means no tip.
    pub tip_rate: real,
}

impl ReceiptView {
    /// Person `p` lists item `i`.
    pub open spec fn lists(self, p: int, i: int) -> bool {
        self.people[p].items.contains(i)
    }

    /// Item `i` carries the receipt's rates where it follows them, and the
    /// neutral rate where it does not.
    pub open spec fn rates_in_force(self, i: int) -> bool {
        let item = self.items[i];
        &&& item.tax_rate == if item.tax {
            self.tax_rate
        } else {
            1real
        }
        &&& item.tip_rate == if item.tip {
            self.tip_rate
        } else {
            1real
        }
    }

    /// The people and the items refer to each other consistently: no person
    /// holds two shares of an item or lists an item twice, every reference
    /// is in range, a person lists exactly the items in which they hold a
    /// share, no two people have the same name, and every item carries the
    /// rates in force for it.
    pub open spec fn wf(self) -> bool {
        &&& forall|p: int|
            0 <= p < self.people.len() ==> {
                &&& (#[trigger] self.people[p]).wf()
                &&& forall|j: int|
                    0 <= j < self.people[p].items.len() ==> 0 <= #[trigger] self.people[p].items[j]
                        < self.items.len()
            }
        &&& forall|i: int|
            0 <= i < self.items.len() ==> {
                &&& (#[trigger] self.items[i]).wf()
                &&& self.items[i].holders_among(self.people.len() as int)
                &&& self.rates_in_force(i)
            }
        &&& forall|p: int, i: int|
            0 <= p < self.people.len() && 0 <= i < self.items.len() ==> (#[trigger] self.lists(p, i)
                <==> self.items[i].has_share(p))
        &&& forall|p: int, q: int|
            0 <= p < q < self.people.len() ==> (#[trigger] self.people[p]).name
                != (#[trigger] self.people[q]).name
    }

    /// Whether somebody on the receipt has this name.
    pub open spec fn has_person(self, name: Seq<char>) -> bool {
        exists|p: int| 0 <= p < self.people.len() && (#[trigger] self.people[p]).name == name
    }

    /// Whether the receipt holds the same purchase as `item`.
    pub open spec fn has_item(self, item: ItemView) -> bool {
        exists|i: int| 0 <= i < self.items.len() && (#[trigger] self.items[i]).same_purchase(item)
    }

    /// The receipt after a person called `name` is added: nothing changes if
    /// there is one already.
    pub open spec fn add_person(self, name: Seq<char>) -> ReceiptView {
        if self.has_person(name) {
            self
        } else {
            ReceiptView {
                people: self.people.push(PersonView { name, items: Seq::<int>::empty() }),
                ..self
            }
        }
    }

    /// The item that is made for a purchase of `cost` cents: it carries the
    /// receipt's tax rate if it is taxed and the neutral rate if not, and
    /// follows later changes of the rate only if the rate it starts with is
    /// not neutral; likewise for the tip.
    pub open spec fn new_item(self, name: Seq<char>, cost: int, taxed: bool, tipped: bool) -> ItemView {
        let tax_rate = if taxed {
            self.tax_rate
        } else {
            1real
        };
        let tip_rate = if tipped {
            self.tip_rate
        } else {
            1real
        };
        ItemView {
            name,
            cost: cost as real,
            shares: Seq::<ShareView>::empty(),
            tax_rate,
            tip_rate,
            tax: tax_rate != 1real,
            tip: tip_rate != 1real,
        }
    }

    /// The receipt after `item` is added: nothing changes if it holds the
    /// same purchase already.
    pub open spec fn add_item(self, item: ItemView) -> ReceiptView {
        if self.has_item(item) {
            self
        } else {
            ReceiptView { items: self.items.push(item), ..self }
        }
    }

    /// The receipt after its tax rate became `rate`: the items that follow
    /// the tax rate carry the new one.
    pub open spec fn set_tax(self, rate: real) -> ReceiptView {
        ReceiptView {
            tax_rate: rate,
            items: Seq::new(self.items.len(), |i: int| self.items[i].with_tax_rate(rate)),
            ..self
        }
    }

    /// The receipt after its tip rate became `rate`: the items that follow
    /// the tip rate carry the new one.
    pub open spec fn set_tip_percent(self, rate: real) -> ReceiptView {
        ReceiptView {
            tip_rate: rate,
            items: Seq::new(self.items.len(), |i: int| self.items[i].with_tip_rate(rate)),
            ..self
        }
    }

    /// The receipt after person `p`'s share in item `i` is set to `weight`:
    /// the item holds the share and the person lists the item.
    pub open spec fn set_share(self, p: int, i: int, weight: real) -> ReceiptView {
        ReceiptView {
            items: self.items.update(i, self.items[i].set_share(p, weight)),
            people: self.people.update(p, self.people[p].add_item(i)),
            ..self
        }
    }

    /// The weights of every item add up to something other than zero.
    pub open spec fn fully_shared(self) -> bool {
        forall|i: int| 0 <= i < self.items.len() ==> (#[trigger] self.items[i]).total_weight() != 0real
    }

    /// What person `p` owes.
    pub open spec fn person_total(self, p: int) -> real {
        self.people[p].total(p, self.items)
    }

    /// What computing the total of each person returns.
    pub open spec fn person_outcomes(self) -> spec_fn(int) -> Result<real, SplitError> {
        |p: int| self.people[p].total_outcome(p, self.items)
    }

    /// The sum of what the people owe.
    pub open spec fn total_paid(self) -> real {
        sum_to(|p: int| self.person_total(p), self.people.len() as int)
    }

    /// What computing the sum of what the people owe returns.
    pub open spec fn total_paid_outcome(self) -> Result<real, SplitError> {
        accumulate(self.person_outcomes(), self.people.len() as int)
    }

    /// The sum of the fully loaded costs of the items.
    pub open spec fn total_cost(self) -> real {
        sum_to(|i: int| self.items[i].total(), self.items.len() as int)
    }

    /// What computing the sum of the fully loaded costs returns.
    pub open spec fn total_cost_outcome(self) -> Result<real, SplitError> {
        accumulate(|i: int| self.items[i].total_outcome(), self.items.len() as int)
    }

    /// The sum of the base costs of the items.
    pub open spec fn sub_total(self) -> real {
        sum_to(|i: int| self.items[i].cost, self.items.len() as int)
    }

    /// What computing the sum of the base costs returns.
    pub open spec fn sub_total_outcome(self) -> Result<real, SplitError> {
        accumulate(|i: int| Ok::<real, SplitError>(self.items[i].cost), self.items.len() as int)
    }

    /// The sum of the tips on the items.
    pub open spec fn total_tip(self) -> real {
        sum_to(|i: int| self.items[i].total_tip(), self.items.len() as int)
    }

    /// What computing the sum of the tips returns.
    pub open spec fn total_tip_outcome(self) -> Result<real, SplitError> {
        accumulate(|i: int| self.items[i].total_tip_outcome(), self.items.len() as int)
    }

    /// The sum of the taxes on the items.
    pub open spec fn total_tax(self) -> real {
        sum_to(|i: int| self.items[i].total_tax(), self.items.len() as int)
    }

    /// What computing the sum of the taxes returns.
    pub open spec fn total_tax_outcome(self) -> Result<real, SplitError> {
        accumulate(|i: int| self.items[i].total_tax_outcome(), self.items.len() as int)
    }

    /// What `get_totals` lists for person `p`: the name and the whole cents
    /// of what the person owes.
    pub open spec fn person_line(self, p: int) -> (Seq<char>, u32) {
        (self.people[p].name, saturate(self.person_total(p).floor()))
    }

    /// What rendering each item returns.
    pub open spec fn item_texts(self) -> spec_fn(int) -> Result<Seq<char>, SplitError> {
        |i: int| self.items[i].rendered_outcome(self.people)
    }

    /// What rendering each person returns.
    pub open spec fn person_texts(self) -> spec_fn(int) -> Result<Seq<char>, SplitError> {
        |p: int| self.people[p].rendered_outcome(p, self.items)
    }

    /// The five lines that close the report.
    pub open spec fn summary(sub: real, tax: real, tip: real, total: real, paid: real) -> Seq<
        char,
    > {
        "\nSubtotal: "@ + render_amount(sub) + "\nTax: "@ + render_amount(tax) + "\nTip: "@
            + render_amount(tip) + "\nTotal: "@ + render_amount(total) + "\nPaid: "@
            + render_amount(paid)
    }

    /// What computing the summary returns: the five lines, or the failure of
    /// the first sum that cannot be computed, in this order: the subtotal,
    /// the tax, the tip, the total, what was paid.
    pub open spec fn summary_outcome(self) -> Result<Seq<char>, SplitError> {
        match self.sub_total_outcome() {
            Err(e) => Err(e),
            Ok(sub) => match self.total_tax_outcome() {
                Err(e) => Err(e),
                Ok(tax) => match self.total_tip_outcome() {
                    Err(e) => Err(e),
                    Ok(tip) => match self.total_cost_outcome() {
                        Err(e) => Err(e),
                        Ok(total) => match self.total_paid_outcome() {
                            Err(e) => Err(e),
                            Ok(paid) => Ok(ReceiptView::summary(sub, tax, tip, total, paid)),
                        },
                    },
                },
            },
        }
    }

    /// What rendering the receipt returns: the name, the numbered items, the
    /// numbered people and the summary; or the failure of the first of these
    /// that cannot be computed, in this order: the items, the people, the
    /// summary.
    pub open spec fn rendered_outcome(self) -> Result<Seq<char>, SplitError> {
        match numbered(self.item_texts(), self.items.len() as int) {
            Err(e) => Err(e),
            Ok(items) => match numbered(self.person_texts(), self.people.len() as int) {
                Err(e) => Err(e),
                Ok(people) => match self.summary_outcome() {
                    Err(e) => Err(e),
                    Ok(summary) => Ok(self.name + "\n"@ + items + "\n"@ + people + summary),
                },
            },
        }
    }

    /// On a consistent receipt every person is linked to the items.
    pub proof fn lemma_linked(self, p: int)
        requires
            self.wf(),
            0 <= p < self.people.len(),
        ensures
            self.people[p].linked(p, self.items),
    {
        let person = self.people[p];
        assert(person.wf());
        assert forall|j: int| 0 <= j < person.items.len() implies {
            &&& 0 <= #[trigger] person.items[j] < self.items.len()
            &&& self.items[person.items[j]].wf()
            &&& self.items[person.items[j]].has_share(p)
        } by {
            let i = person.items[j];
            assert(0 <= self.people[p].items[j] < self.items.len());
            assert(self.lists(p, i));
            assert(self.items[i].wf());
        }
    }

    /// Whatever sum was computed is the sum that the formulas give.
    pub proof fn lemma_outcome_values(self)
        ensures
            self.total_paid_outcome() is Ok ==> self.total_paid_outcome()->Ok_0
                == self.total_paid(),
            self.total_cost_outcome() is Ok ==> self.total_cost_outcome()->Ok_0
                == self.total_cost(),
            self.sub_total_outcome() is Ok ==> self.sub_total_outcome()->Ok_0 == self.sub_total(),
            self.total_tip_outcome() is Ok ==> self.total_tip_outcome()->Ok_0 == self.total_tip(),
            self.total_tax_outcome() is Ok ==> self.total_tax_outcome()->Ok_0 == self.total_tax(),
    {
        let n = self.items.len() as int;
        if self.total_paid_outcome() is Ok {
            let terms = self.person_outcomes();
            let m = self.people.len() as int;
            lemma_accumulate_ok(terms, m);
            assert forall|p: int| 0 <= p < m implies value_or_zero(#[trigger] terms(p))
                == self.person_total(p) by {
                assert(terms(p) is Ok);
                self.people[p].lemma_total_outcome(p, self.items);
            }
            lemma_sum_agree(|p: int| value_or_zero(terms(p)), |p: int| self.person_total(p), m);
        }
        if self.total_cost_outcome() is Ok {
            let terms = |i: int| self.items[i].total_outcome();
            lemma_accumulate_ok(terms, n);
            assert forall|i: int| 0 <= i < n implies value_or_zero(#[trigger] terms(i))
                == self.items[i].total() by {
                assert(terms(i) is Ok);
                self.items[i].lemma_outcome_values();
            }
            lemma_sum_agree(|i: int| value_or_zero(terms(i)), |i: int| self.items[i].total(), n);
        }
        if self.sub_total_outcome() is Ok {
            let terms = |i: int| Ok::<real, SplitError>(self.items[i].cost);
            lemma_accumulate_ok(terms, n);
            lemma_sum_agree(|i: int| value_or_zero(terms(i)), |i: int| self.items[i].cost, n);
        }
        if self.total_tip_outcome() is Ok {
            let terms = |i: int| self.items[i].total_tip_outcome();
            lemma_accumulate_ok(terms, n);
            assert forall|i: int| 0 <= i < n implies value_or_zero(#[trigger] terms(i))
                == self.items[i].total_tip() by {
                assert(terms(i) is Ok);
                self.items[i].lemma_outcome_values();
            }
            lemma_sum_agree(
                |i: int| value_or_zero(terms(i)),
                |i: int| self.items[i].total_tip(),
                n,
            );
        }
        if self.total_tax_outcome() is Ok {
            let terms = |i: int| self.items[i].total_tax_outcome();
            lemma_accumulate_ok(terms, n);
            assert forall|i: int| 0 <= i < n implies value_or_zero(#[trigger] terms(i))
                == self.items[i].total_tax() by {
                assert(terms(i) is Ok);
                self.items[i].lemma_outcome_values();
            }
            lemma_sum_agree(
                |i: int| value_or_zero(terms(i)),
                |i: int| self.items[i].total_tax(),
                n,
            );
        }
    }

    /// A new tax rate reaches exactly the items that follow the tax rate:
    /// on a consistent receipt each item then carries the new rate if it
    /// follows and the neutral rate if it does not, and nothing else about
    /// it changes.
    pub proof fn lemma_set_tax_reaches(self, rate: real, i: int)
        requires
            self.wf(),
            0 <= i < self.items.len(),
        ensures
            self.set_tax(rate).items[i].tax_rate == if self.items[i].tax {
                rate
            } else {
                1real
            },
            self.set_tax(rate).items[i] == (ItemView {
                tax_rate: self.set_tax(rate).items[i].tax_rate,
                ..self.items[i]
            }),
    {
        assert(self.rates_in_force(i));
    }

    /// A new tip rate reaches exactly the items that follow the tip rate.
    pub proof fn lemma_set_tip_percent_reaches(self, rate: real, i: int)
        requires
            self.wf(),
            0 <= i < self.items.len(),
        ensures
            self.set_tip_percent(rate).items[i].tip_rate == if self.items[i].tip {
                rate
            } else {
                1real
            },
            self.set_tip_percent(rate).items[i] == (ItemView {
                tip_rate: self.set_tip_percent(rate).items[i].tip_rate,
                ..self.items[i]
            }),
    {
        assert(self.rates_in_force(i));
    }

    /// An item that is added untaxed keeps the neutral tax multiplier when
    /// the receipt's tax rate is set afterwards.
    pub proof fn lemma_untaxed_item_keeps_rate(
        self,
        name: Seq<char>,
        cost: int,
        tipped: bool,
        rate: real,
    )
        requires
            !self.has_item(self.new_item(name, cost, false, tipped)),
        ensures
            self.add_item(self.new_item(name, cost, false, tipped)).set_tax(rate).items.last().name
                == name,
            self.add_item(self.new_item(name, cost, false, tipped)).set_tax(
                rate,
            ).items.last().tax_rate == 1real,
    {
    }

    /// An item that is added taxed while the receipt's tax rate is not
    /// neutral carries the new rate as soon as the receipt's tax rate is set.
    pub proof fn lemma_taxed_item_follows_rate(
        self,
        name: Seq<char>,
        cost: int,
        tipped: bool,
        rate: real,
    )
        requires
            self.tax_rate != 1real,
            !self.has_item(self.new_item(name, cost, true, tipped)),
        ensures
            self.add_item(self.new_item(name, cost, true, tipped)).set_tax(rate).items.last().name
                == name,
            self.add_item(self.new_item(name, cost, true, tipped)).set_tax(
                rate,
            ).items.last().tax_rate == rate,
    {
    }

    /// An item that is added untipped keeps the neutral tip multiplier when
    /// the receipt's tip rate is set afterwards.
    pub proof fn lemma_untipped_item_keeps_rate(
        self,
        name: Seq<char>,
        cost: int,
        taxed: bool,
        rate: real,
    )
        requires
            !self.has_item(self.new_item(name, cost, taxed, false)),
        ensures
            self.add_item(self.new_item(name, cost, taxed, false)).set_tip_percent(
                rate,
            ).items.last().tip_rate == 1real,
    {
    }

    /// An item that is added tipped while the receipt's tip rate is not
    /// neutral carries the new rate as soon as the receipt's tip rate is set.
    pub proof fn lemma_tipped_item_follows_rate(
        self,
        name: Seq<char>,
        cost: int,
        taxed: bool,
        rate: real,
    )
        requires
            self.tip_rate != 1real,
            !self.has_item(self.new_item(name, cost, taxed, true)),
        ensures
            self.add_item(self.new_item(name, cost, taxed, true)).set_tip_percent(
                rate,
            ).items.last().tip_rate == rate,
    {
    }

    /// Adding a person a second time is rejected and changes nothing: after
    /// the first time the name is taken, so the receipt stays as it is and
    /// the list of people keeps its length.
    pub proof fn lemma_duplicate_person_rejected(self, name: Seq<char>)
        ensures
            self.add_person(name).has_person(name),
            self.add_person(name).add_person(name) == self.add_person(name),
            self.add_person(name).add_person(name).people.len() == self.add_person(
                name,
            ).people.len(),
    {
        let once = self.add_person(name);
        if !self.has_person(name) {
            assert(once.people[self.people.len() as int].name == name);
        }
    }

    /// Adding a purchase a second time is rejected and changes nothing.
    pub proof fn lemma_duplicate_item_rejected(self, item: ItemView)
        ensures
            self.add_item(item).has_item(item),
            self.add_item(item).add_item(item) == self.add_item(item),
    {
        let once = self.add_item(item);
        if !self.has_item(item) {
            assert(once.items[self.items.len() as int].same_purchase(item));
        }
    }

    /// A new tax rate leaves the receipt consistent.
    pub proof fn lemma_set_tax_wf(self, rate: real)
        requires
            self.wf(),
        ensures
            self.set_tax(rate).wf(),
    {
        let next = self.set_tax(rate);
        assert forall|i: int| 0 <= i < next.items.len() implies (#[trigger] next.items[i]).wf()
            && next.items[i].holders_among(next.people.len() as int) && next.rates_in_force(
            i,
        ) by {
            assert(self.items[i].wf() && self.rates_in_force(i));
            assert(next.items[i].shares == self.items[i].shares);
        }
        assert forall|p: int, i: int|
            0 <= p < next.people.len() && 0 <= i < next.items.len() implies (#[trigger] next.lists(
            p,
            i,
        ) <==> next.items[i].has_share(p)) by {
            assert(self.lists(p, i) <==> self.items[i].has_share(p));
            assert(next.items[i].shares == self.items[i].shares);
        }
    }

    /// A new tip rate leaves the receipt consistent.
    pub proof fn lemma_set_tip_percent_wf(self, rate: real)
        requires
            self.wf(),
        ensures
            self.set_tip_percent(rate).wf(),
    {
        let next = self.set_tip_percent(rate);
        assert forall|i: int| 0 <= i < next.items.len() implies (#[trigger] next.items[i]).wf()
            && next.items[i].holders_among(next.people.len() as int) && next.rates_in_force(
            i,
        ) by {
            assert(self.items[i].wf() && self.rates_in_force(i));
            assert(next.items[i].shares == self.items[i].shares);
        }
        assert forall|p: int, i: int|
            0 <= p < next.people.len() && 0 <= i < next.items.len() implies (#[trigger] next.lists(
            p,
            i,
        ) <==> next.items[i].has_share(p)) by {
            assert(self.lists(p, i) <==> self.items[i].has_share(p));
            assert(next.items[i].shares == self.items[i].shares);
        }
    }

    /// Setting a share leaves the receipt consistent.
    pub proof fn lemma_set_share_wf(self, p: int, i: int, weight: real)
        requires
            self.wf(),
            0 <= p < self.people.len(),
            0 <= i < self.items.len(),
        ensures
            self.set_share(p, i, weight).wf(),
    {
        let next = self.set_share(p, i, weight);
        let item = self.items[i];
        let person = self.people[p];
        assert(item.wf() && person.wf() && self.rates_in_force(i));
        assert(self.lists(p, i) <==> item.has_share(p));
        item.lemma_set_share(p, weight);
        person.lemma_add_item(i);
        assert forall|q: int| 0 <= q < next.people.len() implies {
            &&& (#[trigger] next.people[q]).wf()
            &&& forall|j: int|
                0 <= j < next.people[q].items.len() ==> 0 <= #[trigger] next.people[q].items[j]
                    < next.items.len()
        } by {
            assert(self.people[q].wf());
        }
        assert forall|k: int| 0 <= k < next.items.len() implies (#[trigger] next.items[k]).wf()
            && next.items[k].holders_among(next.people.len() as int) && next.rates_in_force(
            k,
        ) by {
            assert(self.items[k].wf() && self.rates_in_force(k));
        }
        assert forall|q: int, k: int|
            0 <= q < next.people.len() && 0 <= k < next.items.len() implies (#[trigger] next.lists(
            q,
            k,
        ) <==> next.items[k].has_share(q)) by {
            assert(self.lists(q, k) <==> self.items[k].has_share(q));
        }
        assert forall|q: int, r: int| 0 <= q < r < next.people.len() implies (
        #[trigger] next.people[q]).name != (#[trigger] next.people[r]).name by {
            assert(self.people[q].name != self.people[r].name);
        }
    }
}

/// One shared bill.
pub struct Receipt {
    name: String,
    people: Vec<Person>,
    items: Vec<Item>,
    tax_rate: Cost,
    tip_rate: Cost,
}

impl View for Receipt {
    type V = ReceiptView;

    closed spec fn view(&self) -> ReceiptView {
        ReceiptView {
            name: self.name@,
            people: person_views(self.people@),
            items: item_views(self.items@),
            tax_rate: self.tax_rate@,
            tip_rate: self.tip_rate@,
        }
    }
}

impl Receipt {
    /// An empty receipt without a name, with neutral rates.
    pub fn new() -> (r: Receipt)
        ensures
            r@ == (ReceiptView {
                name: Seq::<char>::empty(),
                people: Seq::<PersonView>::empty(),
                items: Seq::<ItemView>::empty(),
                tax_rate: 1real,
                tip_rate: 1real,
            }),
            r@.wf(),
    {
        Receipt::new_with_name(String::new())
    }

    /// An empty receipt with neutral rates.
    pub fn new_with_name(name: String) -> (r: Receipt)
        ensures
            r@ == (ReceiptView {
                name: name@,
                people: Seq::<PersonView>::empty(),
                items: Seq::<ItemView>::empty(),
                tax_rate: 1real,
                tip_rate: 1real,
            }),
            r@.wf(),
    {
        let r = Receipt {
            name,
            people: Vec::new(),
            items: Vec::new(),
            tax_rate: Cost::one(),
            tip_rate: Cost::one(),
        };
        assert(r@.people =~= Seq::<PersonView>::empty());
        assert(r@.items =~= Seq::<ItemView>::empty());
        r
    }

    /// The name of the receipt.
    pub fn name(&self) -> (r: &String)
        ensures
            r@ == self@.name,
    {
        &self.name
    }

    /// The tax multiplier that taxed items carry.
    pub fn tax_rate(&self) -> (r: Cost)
        ensures
            r@ == self@.tax_rate,
    {
        self.tax_rate
    }

    /// The tip multiplier that tipped items carry.
    pub fn tip_rate(&self) -> (r: Cost)
        ensures
            r@ == self@.tip_rate,
    {
        self.tip_rate
    }

    /// The person at place `p`.
    pub fn person(&self, p: usize) -> (r: &Person)
        requires
            p < self@.people.len(),
        ensures
            r@ == self@.people[p as int],
    {
        &self.people[p]
    }

    /// The item at place `i`.
    pub fn item(&self, i: usize) -> (r: &Item)
        requires
            i < self@.items.len(),
        ensures
            r@ == self@.items[i as int],
    {
        &self.items[i]
    }

    /// What the person at place `p` owes.
    pub fn person_total(&self, p: usize) -> (r: Result<Cost, SplitError>)
        requires
            self@.wf(),
            p < self@.people.len(),
        ensures
            outcome(r) == self@.person_outcomes()(p as int),
            r is Ok ==> r->Ok_0@ == self@.person_total(p as int),
    {
        proof {
            self@.lemma_linked(p as int);
        }
        self.people[p].total(p, &self.items)
    }

    /// How many people are on the receipt.
    pub fn person_count(&self) -> (n: usize)
        ensures
            n == self@.people.len(),
    {
        self.people.len()
    }

    /// How many items are on the receipt.
    pub fn item_count(&self) -> (n: usize)
        ensures
            n == self@.items.len(),
    {
        self.items.len()
    }

    /// Adds a person called `name`, unless there is one already; says
    /// whether the person was added.
    pub fn add_person(&mut self, name: String) -> (added: bool)
        requires
            old(self)@.wf(),
        ensures
            added == !old(self)@.has_person(name@),
            final(self)@ == old(self)@.add_person(name@),
            final(self)@.wf(),
    {
        let p = Person::new_with_name(name);
        let mut k: usize = 0;
        while k < self.people.len()
            invariant
                k <= self.people.len(),
                *self == *old(self),
                self@.wf(),
                p@.name == name@,
                forall|j: int| 0 <= j < k ==> (#[trigger] self@.people[j]).name != name@,
            decreases self.people.len() - k,
        {
            if self.people[k].eq(&p) {
                assert(self@.people[k as int].name == name@);
                return false;
            }
            k += 1;
        }
        self.people.push(p);
        assert(self@.people =~= old(self)@.people.push(p@));
        assert(self@.items =~= old(self)@.items);
        proof {
            let now = self@;
            let was = old(self)@;
            assert forall|q: int, i: int|
                0 <= q < now.people.len() && 0 <= i < now.items.len() implies (#[trigger] now.lists(
                q,
                i,
            ) <==> now.items[i].has_share(q)) by {
                if q < was.people.len() {
                    assert(was.lists(q, i) <==> was.items[i].has_share(q));
                }
            }
        }
        true
    }

    /// Adds a purchase of `cost` cents, unless the receipt holds the same
    /// purchase already; says whether it was added. A taxed item starts
    /// with the receipt's tax rate, a tipped one with its tip rate.
    pub fn add_item(&mut self, name: String, cost: u32, tax: bool, tip: bool) -> (added: bool)
        requires
            old(self)@.wf(),
        ensures
            added == !old(self)@.has_item(old(self)@.new_item(name@, cost as int, tax, tip)),
            final(self)@ == old(self)@.add_item(old(self)@.new_item(name@, cost as int, tax, tip)),
            final(self)@.wf(),
    {
        let tax_rate = if tax {
            self.tax_rate
        } else {
            Cost::one()
        };
        let tip_rate = if tip {
            self.tip_rate
        } else {
            Cost::one()
        };
        let item = Item::new_with_all(name, Cost::integer(cost), tax_rate, tip_rate);
        assert(item@ == old(self)@.new_item(name@, cost as int, tax, tip));
        let mut k: usize = 0;
        while k < self.items.len()
            invariant
                k <= self.items.len(),
                *self == *old(self),
                self@.wf(),
                item@ == old(self)@.new_item(name@, cost as int, tax, tip),
                forall|j: int| 0 <= j < k ==> !(#[trigger] self@.items[j]).same_purchase(item@),
            decreases self.items.len() - k,
        {
            if self.items[k].eq(&item) {
                assert(self@.items[k as int].same_purchase(item@));
                return false;
            }
            k += 1;
        }
        self.items.push(item);
        assert(self@.items =~= old(self)@.items.push(item@));
        assert(self@.people =~= old(self)@.people);
        proof {
            let now = self@;
            let was = old(self)@;
            assert forall|p: int, i: int|
                0 <= p < now.people.len() && 0 <= i < now.items.len() implies (#[trigger] now.lists(
                p,
                i,
            ) <==> now.items[i].has_share(p)) by {
                if i < was.items.len() {
                    assert(was.lists(p, i) <==> was.items[i].has_share(p));
                } else {
                    if now.lists(p, i) {
                        let j = choose|j: int|
                            0 <= j < was.people[p].items.len() && was.people[p].items[j] == i;
                        assert(was.people[p].items[j] < was.items.len());
                    }
                }
            }
            assert forall|i: int| 0 <= i < now.items.len() implies (#[trigger] now.items[i]).wf()
                && now.items[i].holders_among(now.people.len() as int) && now.rates_in_force(
                i,
            ) by {
                if i < was.items.len() {
                    assert(was.items[i].wf() && was.rates_in_force(i));
                }
            }
        }
        true
    }

    /// Makes `rate` the receipt's tax multiplier, on the receipt and on
    /// every item that follows the receipt's tax rate.
    pub fn set_tax(&mut self, rate: Cost)
        requires
            old(self)@.wf(),
        ensures
            final(self)@ == old(self)@.set_tax(rate@),
            final(self)@.wf(),
    {
        self.tax_rate = rate;
        let mut k: usize = 0;
        while k < self.items.len()
            invariant
                k <= self.items.len(),
                self.items.len() == old(self).items.len(),
                self.name == old(self).name,
                self.people == old(self).people,
                self.tip_rate == old(self).tip_rate,
                self.tax_rate == rate,
                forall|j: int|
                    0 <= j < k ==> (#[trigger] self.items@[j])@ == old(self).items@[j]@.with_tax_rate(
                        rate@,
                    ),
                forall|j: int| k <= j < self.items.len() ==> self.items@[j] == old(self).items@[j],
            decreases self.items.len() - k,
        {
            self.items[k].apply_tax_rate(rate);
            k += 1;
        }
        assert(self@.items =~= old(self)@.set_tax(rate@).items);
        proof {
            old(self)@.lemma_set_tax_wf(rate@);
        }
    }

    /// Makes `rate` the receipt's tip multiplier, on the receipt and on
    /// every item that follows the receipt's tip rate. A tip of 15 percent
    /// is the multiplier 1.15.
    pub fn set_tip_percent(&mut self, rate: Cost)
        requires
            old(self)@.wf(),
        ensures
            final(self)@ == old(self)@.set_tip_percent(rate@),
            final(self)@.wf(),
    {
        self.tip_rate = rate;
        let mut k: usize = 0;
        while k < self.items.len()
            invariant
                k <= self.items.len(),
                self.items.len() == old(self).items.len(),
                self.name == old(self).name,
                self.people == old(self).people,
                self.tax_rate == old(self).tax_rate,
                self.tip_rate == rate,
                forall|j: int|
                    0 <= j < k ==> (#[trigger] self.items@[j])@ == old(self).items@[j]@.with_tip_rate(
                        rate@,
                    ),
                forall|j: int| k <= j < self.items.len() ==> self.items@[j] == old(self).items@[j],
            decreases self.items.len() - k,
        {
            self.items[k].apply_tip_rate(rate);
            k += 1;
        }
        assert(self@.items =~= old(self)@.set_tip_percent(rate@).items);
        proof {
            old(self)@.lemma_set_tip_percent_wf(rate@);
        }
    }

    /// Gives the person at place `person` a share of weight `share` in the
    /// item at place `item`, in place of an earlier one.
    pub fn set_share(&mut self, person: usize, item: usize, share: Cost)
        requires
            old(self)@.wf(),
            person < old(self)@.people.len(),
            item < old(self)@.items.len(),
        ensures
            final(self)@ == old(self)@.set_share(person as int, item as int, share@),
            final(self)@.wf(),
    {
        proof {
            assert(self@.items[item as int].wf());
            assert(self@.people[person as int].wf());
        }
        self.items[item].set_share(person, share);
        self.people[person].add_item(item);
        assert(self@.items =~= old(self)@.set_share(person as int, item as int, share@).items);
        assert(self@.people =~= old(self)@.set_share(person as int, item as int, share@).people);
        proof {
            old(self)@.lemma_set_share_wf(person as int, item as int, share@);
        }
    }

    /// What every person owes in whole cents, with the person's name, in the
    /// order of the people.
    pub fn get_totals(&self) -> (r: Result<Vec<(String, u32)>, SplitError>)
        requires
            self@.wf(),
        ensures
            match r {
                Ok(v) => {
                    &&& first_error(self@.person_outcomes(), self@.people.len() as int) is None
                    &&& v@.len() == self@.people.len()
                    &&& forall|p: int|
                        0 <= p < v@.len() ==> ((#[trigger] v@[p]).0@, v@[p].1) == self@.person_line(
                            p,
                        )
                },
                Err(e) => first_error(self@.person_outcomes(), self@.people.len() as int) == Some(
                    e,
                ),
            },
    {
        let ghost terms = self@.person_outcomes();
        let mut totals: Vec<(String, u32)> = Vec::new();
        let mut k: usize = 0;
        while k < self.people.len()
            invariant
                k <= self.people.len(),
                self@.wf(),
                terms == self@.person_outcomes(),
                first_error(terms, k as int) is None,
                totals@.len() == k,
                forall|p: int|
                    0 <= p < k ==> ((#[trigger] totals@[p]).0@, totals@[p].1) == self@.person_line(
                        p,
                    ),
            decreases self.people.len() - k,
        {
            proof {
                self@.lemma_linked(k as int);
            }
            let total = match self.people[k].total(k, &self.items) {
                Ok(total) => total,
                Err(e) => {
                    proof {
                        assert(terms(k as int) == Err::<real, SplitError>(e));
                        lemma_first_error_found(terms, k + 1, self.people.len() as int);
                    }
                    return Err(e);
                },
            };
            assert(terms(k as int) is Ok);
            totals.push((self.people[k].name().clone(), total.whole_cents()));
            k += 1;
        }
        Ok(totals)
    }

    /// The sum of what the people owe. Where the weights of every item add
    /// up to something other than zero, this is the sum of the fully loaded
    /// costs of the items.
    pub fn total_paid(&self) -> (r: Result<Cost, SplitError>)
        requires
            self@.wf(),
        ensures
            outcome(r) == self@.total_paid_outcome(),
            r is Ok ==> r->Ok_0@ == self@.total_paid(),
            r is Ok && self@.fully_shared() ==> r->Ok_0@ == self@.total_cost(),
    {
        proof {
            if self@.fully_shared() {
                lemma_conservation(self@);
            }
        }
        let ghost terms = self@.person_outcomes();
        let mut sum = Cost::zero();
        let mut k: usize = 0;
        while k < self.people.len()
            invariant
                k <= self.people.len(),
                self@.wf(),
                terms == self@.person_outcomes(),
                accumulate(terms, k as int) == Ok::<real, SplitError>(sum@),
            decreases self.people.len() - k,
        {
            proof {
                self@.lemma_linked(k as int);
            }
            let term = match self.people[k].total(k, &self.items) {
                Ok(term) => term,
                Err(e) => {
                    proof {
                        lemma_accumulate_failed(terms, k + 1, self.people.len() as int);
                    }
                    return Err(e);
                },
            };
            match sum.add(term) {
                Ok(next) => {
                    sum = next;
                },
                Err(e) => {
                    proof {
                        lemma_accumulate_failed(terms, k + 1, self.people.len() as int);
                    }
                    return Err(e);
                },
            }
            k += 1;
        }
        proof {
            self@.lemma_outcome_values();
        }
        Ok(sum)
    }

    /// The sum of the fully loaded costs of the items.
    pub fn total_cost(&self) -> (r: Result<Cost, SplitError>)
        ensures
            outcome(r) == self@.total_cost_outcome(),
            r is Ok ==> r->Ok_0@ == self@.total_cost(),
    {
        let ghost terms = |i: int| self@.items[i].total_outcome();
        let mut sum = Cost::zero();
        let mut k: usize = 0;
        while k < self.items.len()
            invariant
                k <= self.items.len(),
                terms == |i: int| self@.items[i].total_outcome(),
                accumulate(terms, k as int) == Ok::<real, SplitError>(sum@),
            decreases self.items.len() - k,
        {
            let term = match self.items[k].total() {
                Ok(term) => term,
                Err(e) => {
                    proof {
                        lemma_accumulate_failed(terms, k + 1, self.items.len() as int);
                    }
                    return Err(e);
                },
            };
            match sum.add(term) {
                Ok(next) => {
                    sum = next;
                },
                Err(e) => {
                    proof {
                        lemma_accumulate_failed(terms, k + 1, self.items.len() as int);
                    }
                    return Err(e);
                },
            }
            k += 1;
        }
        proof {
            self@.lemma_outcome_values();
        }
        Ok(sum)
    }

    /// The sum of the base costs of the items.
    pub fn sub_total(&self) -> (r: Result<Cost, SplitError>)
        ensures
            outcome(r) == self@.sub_total_outcome(),
            r is Ok ==> r->Ok_0@ == self@.sub_total(),
    {
        let ghost terms = |i: int| Ok::<real, SplitError>(self@.items[i].cost);
        let mut sum = Cost::zero();
        let mut k: usize = 0;
        while k < self.items.len()
            invariant
                k <= self.items.len(),
                terms == |i: int| Ok::<real, SplitError>(self@.items[i].cost),
                accumulate(terms, k as int) == Ok::<real, SplitError>(sum@),
            decreases self.items.len() - k,
        {
            match sum.add(self.items[k].cost()) {
                Ok(next) => {
                    sum = next;
                },
                Err(e) => {
                    proof {
                        lemma_accumulate_failed(terms, k + 1, self.items.len() as int);
                    }
                    return Err(e);
                },
            }
            k += 1;
        }
        proof {
            self@.lemma_outcome_values();
        }
        Ok(sum)
    }

    /// The sum of the tips on the items.
    pub fn total_tip(&self) -> (r: Result<Cost, SplitError>)
        ensures
            outcome(r) == self@.total_tip_outcome(),
            r is Ok ==> r->Ok_0@ == self@.total_tip(),
    {
        let ghost terms = |i: int| self@.items[i].total_tip_outcome();
        let mut sum = Cost::zero();
        let mut k: usize = 0;
        while k < self.items.len()
            invariant
                k <= self.items.len(),
                terms == |i: int| self@.items[i].total_tip_outcome(),
                accumulate(terms, k as int) == Ok::<real, SplitError>(sum@),
            decreases self.items.len() - k,
        {
            let term = match self.items[k].total_tip() {
                Ok(term) => term,
                Err(e) => {
                    proof {
                        lemma_accumulate_failed(terms, k + 1, self.items.len() as int);
                    }
                    return Err(e);
                },
            };
            match sum.add(term) {
                Ok(next) => {
                    sum = next;
                },
                Err(e) => {
                    proof {
                        lemma_accumulate_failed(terms, k + 1, self.items.len() as int);
                    }
                    return Err(e);
                },
            }
            k += 1;
        }
        proof {
            self@.lemma_outcome_values();
        }
        Ok(sum)
    }

    /// The sum of the taxes on the items.
    pub fn total_tax(&self) -> (r: Result<Cost, SplitError>)
        ensures
            outcome(r) == self@.total_tax_outcome(),
            r is Ok ==> r->Ok_0@ == self@.total_tax(),
    {
        let ghost terms = |i: int| self@.items[i].total_tax_outcome();
        let mut sum = Cost::zero();
        let mut k: usize = 0;
        while k < self.items.len()
            invariant
                k <= self.items.len(),
                terms == |i: int| self@.items[i].total_tax_outcome(),
                accumulate(terms, k as int) == Ok::<real, SplitError>(sum@),
            decreases self.items.len() - k,
        {
            let term = match self.items[k].total_tax() {
                Ok(term) => term,
                Err(e) => {
                    proof {
                        lemma_accumulate_failed(terms, k + 1, self.items.len() as int);
                    }
                    return Err(e);
                },
            };
            match sum.add(term) {
                Ok(next) => {
                    sum = next;
                },
                Err(e) => {
                    proof {
                        lemma_accumulate_failed(terms, k + 1, self.items.len() as int);
                    }
                    return Err(e);
                },
            }
            k += 1;
        }
        proof {
            self@.lemma_outcome_values();
        }
        Ok(sum)
    }

    /// Appends the numbered items to `out`.
    fn append_items(&self, out: &mut String) -> (r: Result<(), SplitError>)
        requires
            self@.wf(),
        ensures
            match r {
                Ok(_) => numbered(self@.item_texts(), self@.items.len() as int) is Ok
                    && final(out)@ == old(out)@ + numbered(
                    self@.item_texts(),
                    self@.items.len() as int,
                )->Ok_0,
                Err(e) => numbered(self@.item_texts(), self@.items.len() as int) == Err::<
                    Seq<char>,
                    SplitError,
                >(e),
            },
    {
        let ghost texts = self@.item_texts();
        let ghost listed = Seq::<char>::empty();
        let mut i: usize = 0;
        assert(out@ =~= old(out)@ + listed);
        while i < self.items.len()
            invariant
                i <= self.items.len(),
                self@.wf(),
                texts == self@.item_texts(),
                numbered(texts, i as int) == Ok::<Seq<char>, SplitError>(listed),
                out@ == old(out)@ + listed,
            decreases self.items.len() - i,
        {
            proof {
                assert(self@.items[i as int].wf());
            }
            let text = match self.items[i].to_string(&self.people) {
                Ok(text) => text,
                Err(e) => {
                    proof {
                        assert(texts(i as int) == Err::<Seq<char>, SplitError>(e));
                        lemma_numbered_failed(texts, i + 1, self.items.len() as int);
                    }
                    return Err(e);
                },
            };
            assert(texts(i as int) == Ok::<Seq<char>, SplitError>(text@));
            push_decimal(out, i as u64);
            out.append(". ");
            out.append(text.as_str());
            proof {
                listed = listed + decimal(i as nat) + ". "@ + text@;
            }
            i += 1;
            assert(out@ =~= old(out)@ + listed);
        }
        Ok(())
    }

    /// Appends the numbered people to `out`.
    fn append_people(&self, out: &mut String) -> (r: Result<(), SplitError>)
        requires
            self@.wf(),
        ensures
            match r {
                Ok(_) => numbered(self@.person_texts(), self@.people.len() as int) is Ok
                    && final(out)@ == old(out)@ + numbered(
                    self@.person_texts(),
                    self@.people.len() as int,
                )->Ok_0,
                Err(e) => numbered(self@.person_texts(), self@.people.len() as int) == Err::<
                    Seq<char>,
                    SplitError,
                >(e),
            },
    {
        let ghost texts = self@.person_texts();
        let ghost listed = Seq::<char>::empty();
        let mut p: usize = 0;
        assert(out@ =~= old(out)@ + listed);
        while p < self.people.len()
            invariant
                p <= self.people.len(),
                self@.wf(),
                texts == self@.person_texts(),
                numbered(texts, p as int) == Ok::<Seq<char>, SplitError>(listed),
                out@ == old(out)@ + listed,
            decreases self.people.len() - p,
        {
            proof {
                self@.lemma_linked(p as int);
            }
            let text = match self.people[p].to_string(p, &self.items) {
                Ok(text) => text,
                Err(e) => {
                    proof {
                        assert(texts(p as int) == Err::<Seq<char>, SplitError>(e));
                        lemma_numbered_failed(texts, p + 1, self.people.len() as int);
                    }
                    return Err(e);
                },
            };
            assert(texts(p as int) == Ok::<Seq<char>, SplitError>(text@));
            push_decimal(out, p as u64);
            out.append(". ");
            out.append(text.as_str());
            proof {
                listed = listed + decimal(p as nat) + ". "@ + text@;
            }
            p += 1;
            assert(out@ =~= old(out)@ + listed);
        }
        Ok(())
    }

    /// Appends the five lines of the summary to `out`.
    fn append_summary(&self, out: &mut String) -> (r: Result<(), SplitError>)
        requires
            self@.wf(),
        ensures
            match r {
                Ok(_) => self@.summary_outcome() is Ok && final(out)@ == old(out)@
                    + self@.summary_outcome()->Ok_0,
                Err(e) => self@.summary_outcome() == Err::<Seq<char>, SplitError>(e),
            },
    {
        let sub = self.sub_total()?;
        let tax = self.total_tax()?;
        let tip = self.total_tip()?;
        let total = self.total_cost()?;
        let paid = self.total_paid()?;
        out.append("\nSubtotal: ");
        out.append(sub.to_string().as_str());
        out.append("\nTax: ");
        out.append(tax.to_string().as_str());
        out.append("\nTip: ");
        out.append(tip.to_string().as_str());
        out.append("\nTotal: ");
        out.append(total.to_string().as_str());
        out.append("\nPaid: ");
        out.append(paid.to_string().as_str());
        assert(out@ =~= old(out)@ + ReceiptView::summary(sub@, tax@, tip@, total@, paid@));
        Ok(())
    }

    /// Renders the whole receipt: the name, the numbered items, the numbered
    /// people, and the subtotal, tax, tip, total and what was paid.
    pub fn to_string(&self) -> (r: Result<String, SplitError>)
        requires
            self@.wf(),
        ensures
            match r {
                Ok(s) => self@.rendered_outcome() == Ok::<Seq<char>, SplitError>(s@),
                Err(e) => self@.rendered_outcome() == Err::<Seq<char>, SplitError>(e),
            },
    {
        let mut s = String::new();
        s.append(self.name.as_str());
        s.append("\n");
        self.append_items(&mut s)?;
        s.append("\n");
        self.append_people(&mut s)?;
        self.append_summary(&mut s)?;
        assert(s@ =~= self@.name + "\n"@ + numbered(
            self@.item_texts(),
            self@.items.len() as int,
        )->Ok_0 + "\n"@ + numbered(self@.person_texts(), self@.people.len() as int)->Ok_0
            + self@.summary_outcome()->Ok_0);
        Ok(s)
    }
}

} // verus!
