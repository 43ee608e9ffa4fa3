//! `Item`: one purchased line of a receipt and the shares that people hold
//! in it.

use crate::cost::{checked, outcome, render_cents, render_exact, saturate, Cost, SplitError};
use crate::person::{person_views, Person, PersonView};
use crate::sums::{
    accumulate, first_error, lemma_accumulate_failed, lemma_accumulate_ok, lemma_first_error_found,
    lemma_sum_agree, lemma_sum_scale, sum_to, value_or_zero,
};
use vstd::prelude::*;
use vstd::string::StringExecFns;

verus! {

/// One person's share in an item.
pub struct ShareView {
    /// The person's place in the receipt's list of people.
    pub person: int,
    /// The weight of the share, relative to the other shares of the item.
    pub weight: real,
}

/// What an item is.
pub struct ItemView {
    pub name: Seq<char>,
    /// The base cost in cents.
    pub cost: real,
    /// The shares, in the order in which people first got one.
    pub shares: Seq<ShareView>,
    /// The tax multiplier in force for this item; 1 means no tax.
    pub tax_rate: real,
    /// The tip multiplier in force for this item; 1 means no tip.
    pub tip_rate: real,
    /// Whether the item takes over a new tax rate of the receipt.
    pub tax: bool,
    /// Whether the item takes over a new tip rate of the receipt.
    pub tip: bool,
}

impl ItemView {
    /// No person holds two shares.
    pub open spec fn wf(self) -> bool {
        forall|j: int, k: int|
            0 <= j < k < self.shares.len() ==> (#[trigger] self.shares[j]).person
                != (#[trigger] self.shares[k]).person
    }

    /// Whether person `p` holds a share.
    pub open spec fn has_share(self, p: int) -> bool {
        exists|k: int| 0 <= k < self.shares.len() && (#[trigger] self.shares[k]).person == p
    }

    /// The place of person `p`'s share among the shares.
    pub open spec fn slot(self, p: int) -> int {
        choose|k: int| 0 <= k < self.shares.len() && (#[trigger] self.shares[k]).person == p
    }

    /// The weight of person `p`'s share.
    pub open spec fn weight_of(self, p: int) -> real {
        self.shares[self.slot(p)].weight
    }

    /// The people who hold a share, in the order of the shares.
    pub open spec fn holders(self) -> Seq<int> {
        Seq::new(self.shares.len(), |k: int| self.shares[k].person)
    }

    /// The fully loaded cost: the base cost with tax and tip.
    pub open spec fn total(self) -> real {
        self.cost * (self.tax_rate * self.tip_rate)
    }

    /// What computing the fully loaded cost returns.
    pub open spec fn total_outcome(self) -> Result<real, SplitError> {
        match checked(self.tax_rate * self.tip_rate) {
            Err(e) => Err(e),
            Ok(multiplier) => checked(self.cost * multiplier),
        }
    }

    /// The sum of the weights of all shares.
    pub open spec fn total_weight(self) -> real {
        sum_to(|k: int| self.shares[k].weight, self.shares.len() as int)
    }

    /// What adding up the weights returns.
    pub open spec fn total_weight_outcome(self) -> Result<real, SplitError> {
        accumulate(
            |k: int| Ok::<real, SplitError>(self.shares[k].weight),
            self.shares.len() as int,
        )
    }

    /// The cost of one unit of weight.
    pub open spec fn cost_per_share(self) -> real {
        self.total() / self.total_weight()
    }

    /// What computing the cost of one unit of weight returns: there is none
    /// when the weights add up to zero.
    pub open spec fn cost_per_share_outcome(self) -> Result<real, SplitError> {
        match self.total_weight_outcome() {
            Err(e) => Err(e),
            Ok(weight) => if weight == 0real {
                Err(SplitError::NoShares)
            } else {
                match self.total_outcome() {
                    Err(e) => Err(e),
                    Ok(total) => checked(total / weight),
                }
            },
        }
    }

    /// What person `p` owes on this item.
    pub open spec fn cost_per_person(self, p: int) -> real {
        self.cost_per_share() * self.weight_of(p)
    }

    /// What computing person `p`'s part returns.
    pub open spec fn cost_per_person_outcome(self, p: int) -> Result<real, SplitError> {
        match self.cost_per_share_outcome() {
            Err(e) => Err(e),
            Ok(per_share) => checked(per_share * self.weight_of(p)),
        }
    }

    /// The tax on the base cost.
    pub open spec fn total_tax(self) -> real {
        self.cost * (self.tax_rate - 1real)
    }

    /// What computing the tax returns.
    pub open spec fn total_tax_outcome(self) -> Result<real, SplitError> {
        match checked(self.tax_rate - 1real) {
            Err(e) => Err(e),
            Ok(rate) => checked(self.cost * rate),
        }
    }

    /// The tip: what is left of the fully loaded cost after the base cost and
    /// the tax.
    pub open spec fn total_tip(self) -> real {
        self.total() - self.cost - self.total_tax()
    }

    /// What computing the tip returns.
    pub open spec fn total_tip_outcome(self) -> Result<real, SplitError> {
        match self.total_outcome() {
            Err(e) => Err(e),
            Ok(total) => match checked(total - self.cost) {
                Err(e) => Err(e),
                Ok(loaded) => match self.total_tax_outcome() {
                    Err(e) => Err(e),
                    Ok(tax) => checked(loaded - tax),
                },
            },
        }
    }

    /// The item after person `p`'s share is set to `weight`: an existing
    /// share is overwritten in place, a new one comes last.
    pub open spec fn set_share(self, p: int, weight: real) -> ItemView {
        let share = ShareView { person: p, weight };
        ItemView {
            shares: if self.has_share(p) {
                self.shares.update(self.slot(p), share)
            } else {
                self.shares.push(share)
            },
            ..self
        }
    }

    /// The item after the receipt's tax rate became `rate`.
    pub open spec fn with_tax_rate(self, rate: real) -> ItemView {
        if self.tax {
            ItemView { tax_rate: rate, ..self }
        } else {
            self
        }
    }

    /// The item after the receipt's tip rate became `rate`.
    pub open spec fn with_tip_rate(self, rate: real) -> ItemView {
        if self.tip {
            ItemView { tip_rate: rate, ..self }
        } else {
            self
        }
    }

    /// Whether two items count as the same purchase: the same name, rates
    /// and base cost.
    pub open spec fn same_purchase(self, other: ItemView) -> bool {
        self.name == other.name && self.tip_rate == other.tip_rate && self.tax_rate
            == other.tax_rate && self.cost == other.cost
    }

    /// Every holder is one of the first `n` people.
    pub open spec fn holders_among(self, n: int) -> bool {
        forall|k: int| 0 <= k < self.shares.len() ==> 0 <= (#[trigger] self.shares[k]).person < n
    }

    /// What computing the part of each holder returns, in the order of the
    /// shares.
    pub open spec fn part_outcomes(self) -> spec_fn(int) -> Result<real, SplitError> {
        |k: int| self.cost_per_person_outcome(self.shares[k].person)
    }

    /// Why listing the parts of all holders fails, if it does: there is no
    /// cost per unit of weight, or a part is out of range.
    pub open spec fn all_costs_error(self) -> Option<SplitError> {
        match self.cost_per_share_outcome() {
            Err(e) => Some(e),
            Ok(_) => first_error(self.part_outcomes(), self.shares.len() as int),
        }
    }

    /// The first `n` shares as text: for each the holder's name and, in
    /// brackets, the weight and the holder's part.
    pub open spec fn share_lines(self, people: Seq<PersonView>, n: int) -> Seq<char>
        decreases n,
    {
        if n <= 0 {
            Seq::<char>::empty()
        } else {
            let share = self.shares[n - 1];
            self.share_lines(people, n - 1) + people[share.person].name + "("@ + render_exact(
                share.weight,
            ) + ","@ + render_amount(self.cost_per_person(share.person)) + "), "@
        }
    }

    /// The item as text: the name and the base cost, and on the next line
    /// the shares.
    pub open spec fn rendered(self, people: Seq<PersonView>) -> Seq<char> {
        "Item: "@ + self.name + " "@ + render_amount(self.cost) + "\n"@ + self.share_lines(
            people,
            self.shares.len() as int,
        )
    }

    /// What rendering the item returns: it fails with the first part that
    /// cannot be computed.
    pub open spec fn rendered_outcome(self, people: Seq<PersonView>) -> Result<
        Seq<char>,
        SplitError,
    > {
        match first_error(self.part_outcomes(), self.shares.len() as int) {
            Some(e) => Err(e),
            None => Ok(self.rendered(people)),
        }
    }

    /// Whatever was computed of the item is the value that the formulas
    /// give; and a cost per unit of weight is computed only where the
    /// weights do not add up to zero.
    pub proof fn lemma_outcome_values(self)
        ensures
            self.total_outcome() is Ok ==> self.total_outcome()->Ok_0 == self.total(),
            self.total_weight_outcome() is Ok ==> self.total_weight_outcome()->Ok_0
                == self.total_weight(),
            self.cost_per_share_outcome() is Ok ==> self.cost_per_share_outcome()->Ok_0
                == self.cost_per_share() && self.total_weight() != 0real,
            self.total_tax_outcome() is Ok ==> self.total_tax_outcome()->Ok_0 == self.total_tax(),
            self.total_tip_outcome() is Ok ==> self.total_tip_outcome()->Ok_0 == self.total_tip(),
    {
        let n = self.shares.len() as int;
        let terms = |k: int| Ok::<real, SplitError>(self.shares[k].weight);
        if self.total_weight_outcome() is Ok {
            lemma_accumulate_ok(terms, n);
            lemma_sum_agree(|k: int| value_or_zero(terms(k)), |k: int| self.shares[k].weight, n);
        }
    }

    /// A part that was computed is the part that the formula gives, and it
    /// is computed only where the weights do not add up to zero.
    pub proof fn lemma_part_outcome(self, p: int)
        ensures
            self.cost_per_person_outcome(p) is Ok ==> self.cost_per_person_outcome(p)->Ok_0
                == self.cost_per_person(p) && self.total_weight() != 0real,
    {
        self.lemma_outcome_values();
    }

    /// Setting person `p`'s share changes that share and no other: the
    /// holders stay distinct, `p` is a holder, and who else is a holder and
    /// with what weight stays as it was.
    pub proof fn lemma_set_share(self, p: int, weight: real)
        requires
            self.wf(),
        ensures
            self.set_share(p, weight).wf(),
            self.set_share(p, weight).has_share(p),
            self.set_share(p, weight).weight_of(p) == weight,
            forall|q: int|
                q != p ==> (#[trigger] self.set_share(p, weight).has_share(q) <==> self.has_share(q)),
            forall|q: int|
                q != p && self.has_share(q) ==> #[trigger] self.set_share(p, weight).weight_of(q)
                    == self.weight_of(q),
            forall|n: int|
                self.holders_among(n) && 0 <= p < n ==> #[trigger] self.set_share(
                    p,
                    weight,
                ).holders_among(n),
    {
        let next = self.set_share(p, weight);
        let at = if self.has_share(p) {
            self.slot(p)
        } else {
            self.shares.len() as int
        };
        assert(next.shares[at].person == p);
        assert forall|k: int| 0 <= k < next.shares.len() && k != at implies (
        #[trigger] next.shares[k]) == self.shares[k] by {}
        assert forall|k: int| 0 <= k < self.shares.len() && k != at implies (
        #[trigger] self.shares[k]) == next.shares[k] by {}
        assert(next.wf()) by {
            assert forall|j: int, k: int| 0 <= j < k < next.shares.len() implies (
            #[trigger] next.shares[j]).person != (#[trigger] next.shares[k]).person by {
                if j != at && k != at {
                    assert(self.shares[j].person != self.shares[k].person);
                } else if j == at {
                    assert(self.shares[k].person != p);
                } else {
                    assert(self.shares[j].person != p);
                }
            }
        }
        next.lemma_slot(at);
        assert forall|q: int| q != p implies (#[trigger] next.has_share(q) <==> self.has_share(
            q,
        )) by {
            if next.has_share(q) {
                let k = next.slot(q);
                assert(self.shares[k].person == q);
            }
            if self.has_share(q) {
                let k = self.slot(q);
                assert(next.shares[k].person == q);
            }
        }
        assert forall|q: int| q != p && self.has_share(q) implies #[trigger] next.weight_of(q)
            == self.weight_of(q) by {
            let k = self.slot(q);
            assert(next.shares[k].person == q);
            next.lemma_slot(k);
        }
        assert forall|n: int| self.holders_among(n) && 0 <= p < n implies #[trigger] next.holders_among(
            n,
        ) by {
            assert forall|k: int| 0 <= k < next.shares.len() implies 0 <= (
            #[trigger] next.shares[k]).person < n by {
                if k != at {
                    assert(self.shares[k].person < n);
                }
            }
        }
    }

    /// The parts of the holders add up to the fully loaded cost, whenever
    /// the weights do not add up to zero.
    pub proof fn lemma_parts_add_up(self)
        requires
            self.wf(),
            self.total_weight() != 0real,
        ensures
            sum_to(
                |k: int| self.cost_per_person(self.shares[k].person),
                self.shares.len() as int,
            ) == self.total(),
    {
        let n = self.shares.len() as int;
        let weights = |k: int| self.shares[k].weight;
        let parts = |k: int| self.cost_per_person(self.shares[k].person);
        let per_share = self.cost_per_share();
        assert forall|k: int| 0 <= k < n implies #[trigger] parts(k) == per_share * weights(k) by {
            self.lemma_slot(k);
        }
        lemma_sum_scale(per_share, weights, parts, n);
        let t = self.total();
        let w = self.total_weight();
        assert((t / w) * w == t) by (nonlinear_arith)
            requires
                w != 0real,
        ;
    }

    /// A holder's part is the holder's weight out of all weights, of the
    /// fully loaded cost.
    pub proof fn lemma_proportional(self, p: int)
        requires
            self.total_weight() != 0real,
        ensures
            self.cost_per_person(p) == self.total() * (self.weight_of(p) / self.total_weight()),
    {
        let t = self.total();
        let w = self.total_weight();
        let x = self.weight_of(p);
        assert((t / w) * x == t * (x / w)) by (nonlinear_arith)
            requires
                w != 0real,
        ;
    }

    /// Holders of equal weight owe the same.
    pub proof fn lemma_equal_weights_equal_parts(self, p: int, q: int)
        requires
            self.weight_of(p) == self.weight_of(q),
        ensures
            self.cost_per_person(p) == self.cost_per_person(q),
    {
    }

    /// When two people hold all the shares, with weights `a` and `b` that do
    /// not add up to zero, the first owes `a / (a + b)` of the fully loaded
    /// cost and the second `b / (a + b)`: half each for equal weights, two
    /// thirds and one third for weights 2 and 1.
    pub proof fn lemma_split_in_two(self, a: real, b: real)
        requires
            self.wf(),
            self.shares.len() == 2,
            self.shares[0].weight == a,
            self.shares[1].weight == b,
            a + b != 0real,
        ensures
            self.cost_per_person(self.shares[0].person) == self.total() * (a / (a + b)),
            self.cost_per_person(self.shares[1].person) == self.total() * (b / (a + b)),
            a == b ==> self.cost_per_person(self.shares[0].person) == self.total() / 2real
                && self.cost_per_person(self.shares[1].person) == self.total() / 2real,
            a == 2real && b == 1real ==> self.cost_per_person(self.shares[0].person) == 2real
                / 3real * self.total() && self.cost_per_person(self.shares[1].person) == 1real
                / 3real * self.total(),
    {
        self.lemma_slot(0);
        self.lemma_slot(1);
        let weights = |k: int| self.shares[k].weight;
        assert(self.total_weight() == a + b) by {
            assert(sum_to(weights, 2) == sum_to(weights, 1) + weights(1));
            assert(sum_to(weights, 1) == sum_to(weights, 0) + weights(0));
            assert(sum_to(weights, 0) == 0real);
        }
        self.lemma_proportional(self.shares[0].person);
        self.lemma_proportional(self.shares[1].person);
        let t = self.total();
        if a == b {
            assert(t * (a / (a + a)) == t / 2real) by (nonlinear_arith)
                requires
                    a + a != 0real,
            ;
        }
        if a == 2real && b == 1real {
            assert(t * (2real / (2real + 1real)) == 2real / 3real * t) by (nonlinear_arith);
            assert(t * (1real / (2real + 1real)) == 1real / 3real * t) by (nonlinear_arith);
        }
    }

    /// Among distinct holders, the share at place `k` is its holder's share.
    pub proof fn lemma_slot(self, k: int)
        requires
            self.wf(),
            0 <= k < self.shares.len(),
        ensures
            self.has_share(self.shares[k].person),
            self.slot(self.shares[k].person) == k,
    {
        let p = self.shares[k].person;
        let c = self.slot(p);
        assert(0 <= c < self.shares.len() && self.shares[c].person == p);
    }
}

/// An amount as it is shown: its whole cents as dollars and cents.
pub open spec fn render_amount(v: real) -> Seq<char> {
    render_cents(saturate(v.floor()) as nat)
}

/// What each of the items is.
pub open spec fn item_views(items: Seq<Item>) -> Seq<ItemView> {
    Seq::new(items.len(), |k: int| items[k]@)
}

/// One person's share in an item.
pub struct Share {
    person: usize,
    weight: Cost,
}

impl View for Share {
    type V = ShareView;

    closed spec fn view(&self) -> ShareView {
        ShareView { person: self.person as int, weight: self.weight@ }
    }
}

/// One purchased line of a receipt.
pub struct Item {
    name: String,
    cost: Cost,
    shares: Vec<Share>,
    tax_rate: Cost,
    tip_rate: Cost,
    tax: bool,
    tip: bool,
}

impl View for Item {
    type V = ItemView;

    closed spec fn view(&self) -> ItemView {
        ItemView {
            name: self.name@,
            cost: self.cost@,
            shares: Seq::new(self.shares@.len(), |k: int| self.shares@[k]@),
            tax_rate: self.tax_rate@,
            tip_rate: self.tip_rate@,
            tax: self.tax,
            tip: self.tip,
        }
    }
}

impl Item {
    /// An item without a name that costs nothing.
    pub fn new() -> (r: Item)
        ensures
            r@ == (ItemView {
                name: Seq::<char>::empty(),
                cost: 0real,
                shares: Seq::<ShareView>::empty(),
                tax_rate: 1real,
                tip_rate: 1real,
                tax: false,
                tip: false,
            }),
    {
        Item::new_with_all(String::new(), Cost::zero(), Cost::one(), Cost::one())
    }

    /// An item without tax or tip.
    pub fn new_with_name_cost(name: String, cost: Cost) -> (r: Item)
        ensures
            r@ == (ItemView {
                name: name@,
                cost: cost@,
                shares: Seq::<ShareView>::empty(),
                tax_rate: 1real,
                tip_rate: 1real,
                tax: false,
                tip: false,
            }),
    {
        Item::new_with_all(name, cost, Cost::one(), Cost::one())
    }

    /// An item with the given multipliers and no shares yet. It will follow
    /// the receipt's tax rate if its own differs from 1, and likewise for the
    /// tip.
    pub fn new_with_all(name: String, cost: Cost, tax_rate: Cost, tip_rate: Cost) -> (r: Item)
        ensures
            r@ == (ItemView {
                name: name@,
                cost: cost@,
                shares: Seq::<ShareView>::empty(),
                tax_rate: tax_rate@,
                tip_rate: tip_rate@,
                tax: tax_rate@ != 1real,
                tip: tip_rate@ != 1real,
            }),
    {
        let one = Cost::one();
        let tax = !tax_rate.same(&one);
        let tip = !tip_rate.same(&one);
        let r = Item { name, cost, shares: Vec::new(), tax_rate, tip_rate, tax, tip };
        assert(r@.shares =~= Seq::<ShareView>::empty());
        r
    }

    /// The place of `person`'s share among the shares, if there is one.
    fn find(&self, person: usize) -> (r: Option<usize>)
        ensures
            match r {
                Some(k) => k < self@.shares.len() && self@.shares[k as int].person == person,
                None => !self@.has_share(person as int),
            },
    {
        let mut k: usize = 0;
        while k < self.shares.len()
            invariant
                k <= self.shares.len(),
                forall|j: int| 0 <= j < k ==> (#[trigger] self@.shares[j]).person != person,
            decreases self.shares.len() - k,
        {
            if self.shares[k].person == person {
                return Some(k);
            }
            k += 1;
        }
        None
    }

    /// Whether `person` holds a share in this item.
    pub fn has_share(&self, person: usize) -> (r: bool)
        ensures
            r == self@.has_share(person as int),
    {
        self.find(person).is_some()
    }

    /// Sets `person`'s share to `weight`, overwriting an earlier one.
    pub fn set_share(&mut self, person: usize, weight: Cost)
        requires
            old(self)@.wf(),
        ensures
            final(self)@ == old(self)@.set_share(person as int, weight@),
            final(self)@.wf(),
    {
        match self.find(person) {
            Some(k) => {
                proof {
                    self@.lemma_slot(k as int);
                }
                self.shares.set(k, Share { person, weight });
            },
            None => {
                self.shares.push(Share { person, weight });
            },
        }
        assert(self@.shares =~= old(self)@.set_share(person as int, weight@).shares);
    }

    /// The name of the item.
    pub fn name(&self) -> (r: &String)
        ensures
            r@ == self@.name,
    {
        &self.name
    }

    /// How many people hold a share in the item.
    pub fn share_count(&self) -> (n: usize)
        ensures
            n == self@.shares.len(),
    {
        self.shares.len()
    }

    /// The base cost of the item.
    pub fn cost(&self) -> (r: Cost)
        ensures
            r@ == self@.cost,
    {
        self.cost
    }

    /// The tax multiplier in force for the item.
    pub fn tax_rate(&self) -> (r: Cost)
        ensures
            r@ == self@.tax_rate,
    {
        self.tax_rate
    }

    /// The tip multiplier in force for the item.
    pub fn tip_rate(&self) -> (r: Cost)
        ensures
            r@ == self@.tip_rate,
    {
        self.tip_rate
    }

    /// The fully loaded cost: the base cost with tax and tip.
    pub fn total(&self) -> (r: Result<Cost, SplitError>)
        ensures
            outcome(r) == self@.total_outcome(),
            r is Ok ==> r->Ok_0@ == self@.total(),
    {
        let multiplier = self.tax_rate.mul(self.tip_rate)?;
        self.cost.mul(multiplier)
    }

    /// The sum of the weights of all shares.
    pub fn total_weight(&self) -> (r: Result<Cost, SplitError>)
        ensures
            outcome(r) == self@.total_weight_outcome(),
            r is Ok ==> r->Ok_0@ == self@.total_weight(),
    {
        let ghost terms = |k: int| Ok::<real, SplitError>(self@.shares[k].weight);
        let mut sum = Cost::zero();
        let mut k: usize = 0;
        while k < self.shares.len()
            invariant
                k <= self.shares.len(),
                terms == |k: int| Ok::<real, SplitError>(self@.shares[k].weight),
                accumulate(terms, k as int) == Ok::<real, SplitError>(sum@),
            decreases self.shares.len() - k,
        {
            match sum.add(self.shares[k].weight) {
                Ok(next) => {
                    sum = next;
                },
                Err(e) => {
                    proof {
                        lemma_accumulate_failed(terms, k + 1, self.shares.len() as int);
                    }
                    return Err(e);
                },
            }
            k += 1;
        }
        proof {
            self@.lemma_outcome_values();
        }
        Ok(sum)
    }

    /// The cost of one unit of weight.
    pub fn cost_per_share(&self) -> (r: Result<Cost, SplitError>)
        ensures
            outcome(r) == self@.cost_per_share_outcome(),
            r is Ok ==> r->Ok_0@ == self@.cost_per_share(),
    {
        let weight = self.total_weight()?;
        if weight.same(&Cost::zero()) {
            return Err(SplitError::NoShares);
        }
        let total = self.total()?;
        total.div(weight)
    }

    /// What `person` owes on this item.
    pub fn cost_per_person(&self, person: usize) -> (r: Result<Cost, SplitError>)
        requires
            self@.wf(),
            self@.has_share(person as int),
        ensures
            outcome(r) == self@.cost_per_person_outcome(person as int),
            r is Ok ==> r->Ok_0@ == self@.cost_per_person(person as int),
    {
        let k = self.find(person).unwrap();
        proof {
            self@.lemma_slot(k as int);
        }
        let per_share = self.cost_per_share()?;
        per_share.mul(self.shares[k].weight)
    }

    /// What each holder owes on this item, in the order of the shares.
    pub fn all_costs_per_person(&self) -> (r: Result<Vec<(usize, Cost)>, SplitError>)
        requires
            self@.wf(),
        ensures
            match r {
                Ok(v) => {
                    &&& self@.all_costs_error() is None
                    &&& v@.len() == self@.shares.len()
                    &&& forall|k: int|
                        0 <= k < v@.len() ==> (#[trigger] v@[k]).0 == self@.shares[k].person
                            && v@[k].1@ == self@.cost_per_person(self@.shares[k].person)
                },
                Err(e) => self@.all_costs_error() == Some(e),
            },
    {
        let ghost parts = self@.part_outcomes();
        let per_share = self.cost_per_share()?;
        let mut costs: Vec<(usize, Cost)> = Vec::new();
        let mut k: usize = 0;
        while k < self.shares.len()
            invariant
                k <= self.shares.len(),
                self@.wf(),
                parts == self@.part_outcomes(),
                self@.cost_per_share_outcome() == Ok::<real, SplitError>(per_share@),
                first_error(parts, k as int) is None,
                costs@.len() == k,
                forall|j: int|
                    0 <= j < k ==> (#[trigger] costs@[j]).0 == self@.shares[j].person
                        && costs@[j].1@ == self@.cost_per_person(self@.shares[j].person),
            decreases self.shares.len() - k,
        {
            proof {
                self@.lemma_slot(k as int);
                self@.lemma_part_outcome(self@.shares[k as int].person);
            }
            match per_share.mul(self.shares[k].weight) {
                Ok(part) => {
                    costs.push((self.shares[k].person, part));
                },
                Err(e) => {
                    proof {
                        assert(parts(k as int) == Err::<real, SplitError>(e));
                        lemma_first_error_found(parts, k + 1, self.shares.len() as int);
                    }
                    return Err(e);
                },
            }
            assert(parts(k as int) is Ok);
            k += 1;
        }
        Ok(costs)
    }

    /// Renders the item: the name, the base cost, and for each share the
    /// holder's name out of `people`, the weight and the holder's part.
    pub fn to_string(&self, people: &Vec<Person>) -> (r: Result<String, SplitError>)
        requires
            self@.wf(),
            self@.holders_among(people@.len() as int),
        ensures
            match r {
                Ok(s) => self@.rendered_outcome(person_views(people@)) == Ok::<
                    Seq<char>,
                    SplitError,
                >(s@),
                Err(e) => self@.rendered_outcome(person_views(people@)) == Err::<
                    Seq<char>,
                    SplitError,
                >(e),
            },
    {
        let ghost parts = self@.part_outcomes();
        let ghost names = person_views(people@);
        let mut s = String::new();
        s.append("Item: ");
        s.append(self.name.as_str());
        s.append(" ");
        s.append(self.cost.to_string().as_str());
        s.append("\n");
        let ghost head = s@;
        let mut k: usize = 0;
        while k < self.shares.len()
            invariant
                k <= self.shares.len(),
                self@.wf(),
                self@.holders_among(people@.len() as int),
                parts == self@.part_outcomes(),
                names == person_views(people@),
                first_error(parts, k as int) is None,
                s@ == head + self@.share_lines(names, k as int),
            decreases self.shares.len() - k,
        {
            let person = self.shares[k].person;
            proof {
                self@.lemma_slot(k as int);
                assert(self@.shares[k as int].person == person);
            }
            let part = match self.cost_per_person(person) {
                Ok(part) => part,
                Err(e) => {
                    proof {
                        assert(parts(k as int) == Err::<real, SplitError>(e));
                        lemma_first_error_found(parts, k + 1, self.shares.len() as int);
                    }
                    return Err(e);
                },
            };
            assert(parts(k as int) is Ok);
            s.append(people[person].name().as_str());
            s.append("(");
            s.append(self.shares[k].weight.to_fraction_string().as_str());
            s.append(",");
            s.append(part.to_string().as_str());
            s.append("), ");
            k += 1;
            assert(s@ =~= head + self@.share_lines(names, k as int));
        }
        assert(s@ =~= self@.rendered(names));
        Ok(s)
    }

    /// The tax on the base cost.
    pub fn total_tax(&self) -> (r: Result<Cost, SplitError>)
        ensures
            outcome(r) == self@.total_tax_outcome(),
            r is Ok ==> r->Ok_0@ == self@.total_tax(),
    {
        let rate = self.tax_rate.sub(Cost::one())?;
        self.cost.mul(rate)
    }

    /// The tip: what is left of the fully loaded cost after the base cost and
    /// the tax.
    pub fn total_tip(&self) -> (r: Result<Cost, SplitError>)
        ensures
            outcome(r) == self@.total_tip_outcome(),
            r is Ok ==> r->Ok_0@ == self@.total_tip(),
    {
        let total = self.total()?;
        let loaded = total.sub(self.cost)?;
        let tax = self.total_tax()?;
        loaded.sub(tax)
    }

    /// Takes over the receipt's new tax rate, if this item is taxed.
    pub fn apply_tax_rate(&mut self, rate: Cost)
        ensures
            final(self)@ == old(self)@.with_tax_rate(rate@),
    {
        if self.tax {
            self.tax_rate = rate;
        }
    }

    /// Takes over the receipt's new tip rate, if this item is tipped.
    pub fn apply_tip_rate(&mut self, rate: Cost)
        ensures
            final(self)@ == old(self)@.with_tip_rate(rate@),
    {
        if self.tip {
            self.tip_rate = rate;
        }
    }

    /// Whether two items count as the same purchase.
    pub fn eq(&self, other: &Item) -> (r: bool)
        ensures
            r == self@.same_purchase(other@),
    {
        self.name == other.name && self.tip_rate.same(&other.tip_rate) && self.tax_rate.same(
            &other.tax_rate,
        ) && self.cost.same(&other.cost)
    }
}

} // verus!
