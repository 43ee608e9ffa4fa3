//! `Person`: someone who owes on a receipt, and the items they owe on.

use crate::cost::{outcome, Cost, SplitError};
use crate::item::{item_views, render_amount, Item, ItemView};
use crate::sums::{
    accumulate, lemma_accumulate_failed, lemma_accumulate_ok, lemma_sum_agree, sum_to,
    value_or_zero,
};
use vstd::prelude::*;
use vstd::string::StringExecFns;

verus! {

/// What a person is.
pub struct PersonView {
    pub name: Seq<char>,
    /// The places, in the receipt's list of items, of the items in which the
    /// person holds a share, in the order in which they got them.
    pub items: Seq<int>,
}

impl PersonView {
    /// No item is listed twice.
    pub open spec fn wf(self) -> bool {
        forall|j: int, k: int| 0 <= j < k < self.items.len() ==> self.items[j] != self.items[k]
    }

    /// Every listed item is one of `items` and holds a share of this person,
    /// who stands at place `me` among the people.
    pub open spec fn linked(self, me: int, items: Seq<ItemView>) -> bool {
        forall|j: int|
            0 <= j < self.items.len() ==> {
                &&& 0 <= #[trigger] self.items[j] < items.len()
                &&& items[self.items[j]].wf()
                &&& items[self.items[j]].has_share(me)
            }
    }

    /// The person after item `item` is listed: nothing changes if it already
    /// is.
    pub open spec fn add_item(self, item: int) -> PersonView {
        if self.items.contains(item) {
            self
        } else {
            PersonView { items: self.items.push(item), ..self }
        }
    }

    /// What the person owes: the sum of their parts of the listed items.
    pub open spec fn total(self, me: int, items: Seq<ItemView>) -> real {
        sum_to(|j: int| items[self.items[j]].cost_per_person(me), self.items.len() as int)
    }

    /// What computing the person's total returns.
    pub open spec fn total_outcome(self, me: int, items: Seq<ItemView>) -> Result<
        real,
        SplitError,
    > {
        accumulate(
            |j: int| items[self.items[j]].cost_per_person_outcome(me),
            self.items.len() as int,
        )
    }

    /// The first `n` entries of the person's breakdown: for each item its
    /// name and, in brackets, the person's part.
    pub open spec fn breakdown(self, me: int, items: Seq<ItemView>, n: int) -> Seq<char>
        decreases n,
    {
        if n <= 0 {
            Seq::<char>::empty()
        } else {
            let item = items[self.items[n - 1]];
            self.breakdown(me, items, n - 1) + item.name + "("@ + render_amount(
                item.cost_per_person(me),
            ) + "), "@
        }
    }

    /// The person as text: the name, the total in brackets, and on the next
    /// line the breakdown.
    pub open spec fn rendered(self, me: int, items: Seq<ItemView>) -> Seq<char> {
        self.name + "("@ + render_amount(self.total(me, items)) + ")\n"@ + self.breakdown(
            me,
            items,
            self.items.len() as int,
        )
    }

    /// What rendering the person returns: it fails as computing their total
    /// does.
    pub open spec fn rendered_outcome(self, me: int, items: Seq<ItemView>) -> Result<
        Seq<char>,
        SplitError,
    > {
        match self.total_outcome(me, items) {
            Err(e) => Err(e),
            Ok(_) => Ok(self.rendered(me, items)),
        }
    }

    /// Listing an item leaves the list without repetition, adds that item
    /// and no other.
    pub proof fn lemma_add_item(self, item: int)
        requires
            self.wf(),
        ensures
            self.add_item(item).wf(),
            self.add_item(item).name == self.name,
            forall|i: int|
                #[trigger] self.add_item(item).items.contains(i) <==> (i == item
                    || self.items.contains(i)),
    {
        let next = self.add_item(item);
        if !self.items.contains(item) {
            assert forall|j: int, k: int| 0 <= j < k < next.items.len() implies next.items[j]
                != next.items[k] by {
                if k == self.items.len() {
                    assert(self.items[j] != item);
                }
            }
            assert forall|i: int| #[trigger]
                next.items.contains(i) <==> (i == item || self.items.contains(i)) by {
                if next.items.contains(i) {
                    let j = choose|j: int| 0 <= j < next.items.len() && next.items[j] == i;
                    if j < self.items.len() {
                        assert(self.items[j] == i);
                    }
                }
                if self.items.contains(i) {
                    let j = choose|j: int| 0 <= j < self.items.len() && self.items[j] == i;
                    assert(next.items[j] == i);
                }
                if i == item {
                    assert(next.items[self.items.len() as int] == i);
                }
            }
        }
    }

    /// A total that was computed is the sum of the person's parts, each of
    /// which was computed.
    pub proof fn lemma_total_outcome(self, me: int, items: Seq<ItemView>)
        requires
            self.total_outcome(me, items) is Ok,
        ensures
            self.total_outcome(me, items)->Ok_0 == self.total(me, items),
            forall|j: int|
                0 <= j < self.items.len() ==> (#[trigger] items[self.items[j]]).cost_per_person_outcome(me)
                    == Ok::<real, SplitError>(items[self.items[j]].cost_per_person(me)),
    {
        let n = self.items.len() as int;
        let terms = |j: int| items[self.items[j]].cost_per_person_outcome(me);
        lemma_accumulate_ok(terms, n);
        assert forall|j: int| 0 <= j < n implies (#[trigger] items[self.items[j]]).cost_per_person_outcome(me)
            == Ok::<real, SplitError>(items[self.items[j]].cost_per_person(me)) by {
            assert(terms(j) is Ok);
            items[self.items[j]].lemma_part_outcome(me);
        }
        lemma_sum_agree(
            |j: int| value_or_zero(terms(j)),
            |j: int| items[self.items[j]].cost_per_person(me),
            n,
        );
    }
}

/// Someone who owes on a receipt.
pub struct Person {
    name: String,
    items: Vec<usize>,
}

impl View for Person {
    type V = PersonView;

    closed spec fn view(&self) -> PersonView {
        PersonView { name: self.name@, items: Seq::new(self.items@.len(), |k: int| self.items@[k] as int) }
    }
}

/// What each of the people is.
pub open spec fn person_views(people: Seq<Person>) -> Seq<PersonView> {
    Seq::new(people.len(), |k: int| people[k]@)
}

impl Person {
    /// A person without a name.
    pub fn new() -> (r: Person)
        ensures
            r@ == (PersonView { name: Seq::<char>::empty(), items: Seq::<int>::empty() }),
    {
        Person::new_with_name(String::new())
    }

    /// A person who owes on nothing yet.
    pub fn new_with_name(name: String) -> (r: Person)
        ensures
            r@ == (PersonView { name: name@, items: Seq::<int>::empty() }),
    {
        let r = Person { name, items: Vec::new() };
        assert(r@.items =~= Seq::<int>::empty());
        r
    }

    /// The name of the person.
    pub fn name(&self) -> (r: &String)
        ensures
            r@ == self@.name,
    {
        &self.name
    }

    /// How many items the person owes on.
    pub fn item_count(&self) -> (n: usize)
        ensures
            n == self@.items.len(),
    {
        self.items.len()
    }

    /// Lists `item` among the items that the person owes on, unless it is
    /// listed already.
    pub fn add_item(&mut self, item: usize)
        requires
            old(self)@.wf(),
        ensures
            final(self)@ == old(self)@.add_item(item as int),
            final(self)@.wf(),
    {
        let mut k: usize = 0;
        while k < self.items.len()
            invariant
                k <= self.items.len(),
                *self == *old(self),
                self@.wf(),
                forall|j: int| 0 <= j < k ==> self@.items[j] != item,
            decreases self.items.len() - k,
        {
            if self.items[k] == item {
                assert(self@.items[k as int] == item as int);
                return ;
            }
            k += 1;
        }
        self.items.push(item);
        assert(self@.items =~= old(self)@.items.push(item as int));
    }

    /// What the person, who stands at place `me` among the people, owes on
    /// `items`.
    pub fn total(&self, me: usize, items: &Vec<Item>) -> (r: Result<Cost, SplitError>)
        requires
            self@.linked(me as int, item_views(items@)),
        ensures
            outcome(r) == self@.total_outcome(me as int, item_views(items@)),
            r is Ok ==> r->Ok_0@ == self@.total(me as int, item_views(items@)),
    {
        let ghost views = item_views(items@);
        let ghost terms = |j: int| views[self@.items[j]].cost_per_person_outcome(me as int);
        let mut sum = Cost::zero();
        let mut k: usize = 0;
        while k < self.items.len()
            invariant
                k <= self.items.len(),
                views == item_views(items@),
                self@.linked(me as int, views),
                terms == |j: int| views[self@.items[j]].cost_per_person_outcome(me as int),
                accumulate(terms, k as int) == Ok::<real, SplitError>(sum@),
            decreases self.items.len() - k,
        {
            let i = self.items[k];
            assert(self@.items[k as int] == i);
            let part = match items[i].cost_per_person(me) {
                Ok(part) => part,
                Err(e) => {
                    proof {
                        lemma_accumulate_failed(terms, k + 1, self.items.len() as int);
                    }
                    return Err(e);
                },
            };
            match sum.add(part) {
                Ok(next) => {
                    sum = next;
                },
                Err(e) => {
                    proof {
                        lemma_accumulate_failed(terms, k + 1, self.items.len() as int);
                    }
                    return Err(e);
                },
            }
            k += 1;
        }
        proof {
            self@.lemma_total_outcome(me as int, views);
        }
        Ok(sum)
    }

    /// Renders the person, who stands at place `me` among the people: the
    /// name, the total, and what they owe on each of `items`.
    pub fn to_string(&self, me: usize, items: &Vec<Item>) -> (r: Result<String, SplitError>)
        requires
            self@.linked(me as int, item_views(items@)),
        ensures
            match r {
                Ok(s) => self@.rendered_outcome(me as int, item_views(items@)) == Ok::<
                    Seq<char>,
                    SplitError,
                >(s@),
                Err(e) => self@.rendered_outcome(me as int, item_views(items@)) == Err::<
                    Seq<char>,
                    SplitError,
                >(e),
            },
    {
        let ghost views = item_views(items@);
        let total = self.total(me, items)?;
        proof {
            self@.lemma_total_outcome(me as int, views);
        }
        let mut s = String::new();
        s.append(self.name.as_str());
        s.append("(");
        s.append(total.to_string().as_str());
        s.append(")\n");
        let ghost head = s@;
        let mut k: usize = 0;
        while k < self.items.len()
            invariant
                k <= self.items.len(),
                views == item_views(items@),
                self@.linked(me as int, views),
                forall|j: int|
                    0 <= j < self@.items.len() ==> (#[trigger] views[self@.items[j]]).cost_per_person_outcome(
                        me as int,
                    ) == Ok::<real, SplitError>(views[self@.items[j]].cost_per_person(me as int)),
                s@ == head + self@.breakdown(me as int, views, k as int),
            decreases self.items.len() - k,
        {
            let i = self.items[k];
            assert(self@.items[k as int] == i);
            assert(views[self@.items[k as int]].cost_per_person_outcome(me as int) is Ok);
            let part = match items[i].cost_per_person(me) {
                Ok(part) => part,
                Err(e) => {
                    return Err(e);
                },
            };
            s.append(items[i].name().as_str());
            s.append("(");
            s.append(part.to_string().as_str());
            s.append("), ");
            k += 1;
            assert(s@ =~= head + self@.breakdown(me as int, views, k as int));
        }
        assert(s@ =~= self@.rendered(me as int, views));
        Ok(s)
    }

    /// Whether two people are the same person: they are if they have the
    /// same name.
    pub fn eq(&self, other: &Person) -> (r: bool)
        ensures
            r == (self@.name == other@.name),
    {
        self.name == other.name
    }
}

} // verus!
