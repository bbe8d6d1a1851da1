//! The mathematical content of an index, and what its queries mean.

use vstd::prelude::*;
use crate::input::{InputID, InputIDVal};

verus! {

/// Identifier of an inferred group.
pub type GroupID = u64;

/// Group data as mathematics: each group with the input values listed for
/// it, in the order of the listing.
pub type GroupLists = Map<GroupID, Seq<InputIDVal>>;

/// Outcome of looking one input up: the group that owns it, or the input
/// itself when no group does.
pub type Outcome = Result<GroupID, InputID>;

/// `value` is listed for at least one group of `groups`.
pub open spec fn listed(groups: GroupLists, value: InputIDVal) -> bool {
    exists|g: GroupID| #[trigger] groups.contains_key(g) && groups[g].contains(value)
}

/// `source` without its groups that list nothing.
pub open spec fn nonempty_groups(source: GroupLists) -> GroupLists {
    source.filter_keys(|g: GroupID| source[g].len() > 0)
}

/// The typed identifiers of a sequence of raw values.
pub open spec fn typed(values: Seq<InputIDVal>) -> Seq<InputID> {
    values.map_values(|v: InputIDVal| InputID { value: v })
}

/// `items` with every repetition of an earlier element left out.
pub open spec fn distinct<T>(items: Seq<T>) -> Seq<T> {
    items.remove_duplicates(Seq::empty())
}

/// The signed code of an outcome: a group is its identifier, an input that
/// no group owns is the negation of its raw value. Group 0 and the unowned
/// input 0 share the code 0; no other two outcomes share one.
pub open spec fn sentinel_of(outcome: Outcome) -> i128 {
    match outcome {
        Ok(group) => group as i128,
        Err(input) => (-(input.value as int)) as i128,
    }
}

/// What an index holds: the groups, and for each listed input the group
/// that owns it.
pub struct InferenceView {
    pub groups: GroupLists,
    pub memberships: Map<InputIDVal, GroupID>,
}

impl InferenceView {
    /// The invariant of every built index: there are finitely many groups
    /// and owned inputs, no group is empty, exactly the listed inputs have
    /// an owner, and the owner of an input is a group that lists it.
    pub open spec fn wf(self) -> bool {
        &&& self.groups.dom().finite()
        &&& self.memberships.dom().finite()
        &&& forall|g: GroupID| #[trigger]
            self.groups.contains_key(g) ==> self.groups[g].len() > 0
        &&& forall|v: InputIDVal| #[trigger]
            self.memberships.contains_key(v) <==> listed(self.groups, v)
        &&& forall|v: InputIDVal| #[trigger]
            self.memberships.contains_key(v) ==> {
                &&& self.groups.contains_key(self.memberships[v])
                &&& self.groups[self.memberships[v]].contains(v)
            }
    }

    /// `self` is an index of `source`: it is well formed and holds the
    /// groups of `source` that list something, with their lists.
    pub open spec fn indexes(self, source: GroupLists) -> bool {
        &&& self.wf()
        &&& self.groups == nonempty_groups(source)
    }

    /// The identifiers of all groups.
    pub open spec fn all_groups(self) -> Set<GroupID> {
        self.groups.dom()
    }

    /// The outcome for one input.
    pub open spec fn lookup(self, id: InputID) -> Outcome {
        if self.memberships.contains_key(id.value) {
            Ok(self.memberships[id.value])
        } else {
            Err(id)
        }
    }

    /// The outcomes for `inputs`, each once, in the order in which they
    /// first occur.
    pub open spec fn outcomes(self, inputs: Seq<InputID>) -> Seq<Outcome> {
        distinct(inputs.map_values(|id: InputID| self.lookup(id)))
    }

    /// The signed codes of the outcomes for `inputs`, each once, in the
    /// order in which they first occur.
    pub open spec fn sentinels(self, inputs: Seq<InputID>) -> Seq<i128> {
        distinct(inputs.map_values(|id: InputID| sentinel_of(self.lookup(id))))
    }

    /// The members of `group`, each once, in the order in which the group
    /// first lists them.
    pub open spec fn members(self, group: GroupID) -> Seq<InputID> {
        distinct(typed(self.groups[group]))
    }
}

/// `distinct` keeps exactly the elements of its argument.
pub proof fn lemma_distinct_contains<T>(items: Seq<T>)
    ensures
        forall|x: T| distinct(items).contains(x) <==> items.contains(x),
{
    items.lemma_remove_duplicates_properties(Seq::empty());
    assert(items + Seq::<T>::empty() =~= items);
}

/// `distinct` of a sequence with one more element at its end: the element
/// is added unless it occurred before.
pub proof fn lemma_distinct_push<T>(items: Seq<T>, last: T)
    ensures
        distinct(items.push(last)) == if items.contains(last) {
            distinct(items)
        } else {
            distinct(items).push(last)
        },
{
    items.lemma_remove_duplicates_append(last, Seq::empty());
    assert(items + Seq::<T>::empty() =~= items);
    assert(items + seq![last] =~= items.push(last));
    assert(distinct(items) + seq![last] =~= distinct(items).push(last));
}

/// Nothing occurs twice in `distinct` of a sequence.
pub proof fn lemma_distinct_no_duplicates<T>(items: Seq<T>)
    ensures
        distinct(items).no_duplicates(),
    decreases items.len(),
{
    if items.len() > 0 {
        let front = items.drop_last();
        assert(items =~= front.push(items.last()));
        lemma_distinct_no_duplicates(front);
        lemma_distinct_push(front, items.last());
        lemma_distinct_contains(front);
    }
}

/// `distinct` of the images of `items` under `f` repeats nothing, and
/// holds exactly the images of the elements of `items`.
pub proof fn lemma_distinct_images<A, B>(items: Seq<A>, f: spec_fn(A) -> B)
    ensures
        distinct(items.map_values(f)).no_duplicates(),
        forall|y: B|
            distinct(items.map_values(f)).contains(y) <==> exists|i: int|
                0 <= i < items.len() && f(#[trigger] items[i]) == y,
{
    let images = items.map_values(f);
    lemma_distinct_no_duplicates(images);
    lemma_distinct_contains(images);
    assert forall|y: B|
        distinct(images).contains(y) <==> exists|i: int|
            0 <= i < items.len() && f(#[trigger] items[i]) == y by {
        assert(distinct(images).contains(y) <==> images.contains(y));
        if images.contains(y) {
            let k = choose|k: int| 0 <= k < images.len() && images[k] == y;
            assert(f(items[k]) == y);
        }
        if exists|i: int| 0 <= i < items.len() && f(#[trigger] items[i]) == y {
            let k = choose|i: int| 0 <= i < items.len() && f(#[trigger] items[i]) == y;
            assert(images[k] == y);
        }
    }
}

/// The typed identifiers of `values` are those whose raw value is among
/// `values`.
pub proof fn lemma_typed_contains(values: Seq<InputIDVal>, id: InputID)
    ensures
        typed(values).contains(id) <==> values.contains(id.value),
{
    let ids = typed(values);
    if ids.contains(id) {
        let k = choose|k: int| 0 <= k < ids.len() && ids[k] == id;
        assert(values[k] == id.value);
    }
    if values.contains(id.value) {
        let k = choose|k: int| 0 <= k < values.len() && values[k] == id.value;
        assert(ids[k] == id);
    }
}

} // verus!
