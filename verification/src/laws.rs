//! What holds of every index, stated over its mathematical content.

use vstd::prelude::*;
use std::collections::HashSet;
use crate::error::InferenceError;
use crate::inference::InferenceMap;
use crate::input::{InputID, InputIDVal};
use crate::model::{
    distinct, lemma_distinct_contains, lemma_distinct_no_duplicates, lemma_typed_contains, listed,
    sentinel_of, typed, GroupID, GroupLists, InferenceView, Outcome,
};

verus! {

/// `group` is the only group of `groups` that lists `value`.
pub open spec fn only_lister(groups: GroupLists, group: GroupID, value: InputIDVal) -> bool {
    forall|other: GroupID| #[trigger]
        groups.contains_key(other) && groups[other].contains(value) ==> other == group
}

/// The outcomes for a single input are the one outcome of looking it up.
proof fn lemma_outcomes_of_one(idx: InferenceView, input: InputID)
    ensures
        idx.outcomes(seq![input]) == seq![idx.lookup(input)],
{
    let looked_up = seq![input].map_values(|id: InputID| idx.lookup(id));
    assert(looked_up =~= seq![idx.lookup(input)]);
    reveal_with_fuel(Seq::remove_duplicates, 2);
    assert(looked_up.skip(1) =~= Seq::<Outcome>::empty());
    assert(Seq::<Outcome>::empty() + seq![idx.lookup(input)] =~= seq![idx.lookup(input)]);
}

/// The groups of an index are the groups of its source that list at least
/// one input: every one of them, and no group that lists nothing.
pub proof fn law_groups_are_the_nonempty_ones(
    source: GroupLists,
    idx: InferenceView,
    group: GroupID,
)
    requires
        idx.indexes(source),
    ensures
        idx.all_groups().contains(group) <==> source.contains_key(group) && source[group].len()
            > 0,
{
}

/// An input that some group lists resolves to a group that lists it, never
/// to itself.
pub proof fn law_listed_input_resolves_to_a_lister(idx: InferenceView, input: InputID)
    requires
        idx.wf(),
        listed(idx.groups, input.value),
    ensures
        idx.outcomes(seq![input]) == seq![Ok::<GroupID, InputID>(idx.memberships[input.value])],
        idx.groups.contains_key(idx.memberships[input.value]),
        idx.groups[idx.memberships[input.value]].contains(input.value),
{
    lemma_outcomes_of_one(idx, input);
}

/// An input that one group lists, and no other, resolves to that group.
pub proof fn law_input_of_one_group_resolves_to_it(
    idx: InferenceView,
    group: GroupID,
    input: InputID,
)
    requires
        idx.wf(),
        idx.groups.contains_key(group),
        idx.groups[group].contains(input.value),
        only_lister(idx.groups, group, input.value),
    ensures
        idx.outcomes(seq![input]) == seq![Ok::<GroupID, InputID>(group)],
{
    law_listed_input_resolves_to_a_lister(idx, input);
}

/// Where no input is listed by two groups of the source, the source fixes
/// its index: any two indexes of it hold the same groups and owners.
pub proof fn law_disjoint_groups_fix_the_index(
    source: GroupLists,
    first: InferenceView,
    second: InferenceView,
)
    requires
        first.indexes(source),
        second.indexes(source),
        forall|group: GroupID, value: InputIDVal|
            source.contains_key(group) && #[trigger] source[group].contains(value)
                ==> only_lister(source, group, value),
    ensures
        first == second,
{
    assert forall|value: InputIDVal| first.memberships.contains_key(value) implies {
        &&& second.memberships.contains_key(value)
        &&& first.memberships[value] == second.memberships[value]
    } by {
        let group = first.memberships[value];
        assert(first.groups.contains_key(group) && first.groups[group].contains(value));
        assert(listed(second.groups, value));
        assert(second.memberships.contains_key(value));
        let other = second.memberships[value];
        assert(second.groups.contains_key(other) && second.groups[other].contains(value));
        assert(source.contains_key(group) && source[group].contains(value));
        assert(source.contains_key(other) && source[other].contains(value));
        assert(only_lister(source, group, value));
    }
    assert forall|value: InputIDVal| second.memberships.contains_key(value) implies
        first.memberships.contains_key(value) by {
        let group = second.memberships[value];
        assert(second.groups.contains_key(group) && second.groups[group].contains(value));
        assert(listed(first.groups, value));
        assert(first.memberships.contains_key(value));
    }
    assert(first.memberships =~= second.memberships);
}

/// An input that no group lists resolves to itself, never to a group.
pub proof fn law_unlisted_input_resolves_to_itself(idx: InferenceView, input: InputID)
    requires
        idx.wf(),
        !listed(idx.groups, input.value),
    ensures
        idx.outcomes(seq![input]) == seq![Err::<GroupID, InputID>(input)],
{
    lemma_outcomes_of_one(idx, input);
}

/// The members of a group of an index are the inputs that its source lists
/// for that group, each once.
pub proof fn law_members_are_the_listed_inputs(
    source: GroupLists,
    idx: InferenceView,
    group: GroupID,
)
    requires
        idx.indexes(source),
        idx.all_groups().contains(group),
    ensures
        idx.members(group) == distinct(typed(source[group])),
        idx.members(group).no_duplicates(),
        forall|id: InputID| idx.members(group).contains(id) <==> source[group].contains(id.value),
{
    let all = typed(source[group]);
    lemma_distinct_no_duplicates(all);
    lemma_distinct_contains(all);
    assert forall|id: InputID| idx.members(group).contains(id) <==> source[group].contains(
        id.value,
    ) by {
        lemma_typed_contains(source[group], id);
    }
}

/// In the signed encoding a group is never negative and an unowned input
/// never positive, and two different outcomes share a code only where one is
/// group 0 and the other the unowned input 0.
pub proof fn law_sentinels_collide_at_zero_only(a: Outcome, b: Outcome)
    ensures
        a is Ok ==> sentinel_of(a) == a->Ok_0,
        a is Err ==> sentinel_of(a) == -(a->Err_0.value as int),
        sentinel_of(a) == sentinel_of(b) ==> a == b || sentinel_of(a) == 0,
{
}

/// Two answers of `inputs_to_groups` to the same inputs on the same index
/// are equal.
pub proof fn law_repeated_lookups_agree(
    idx: &InferenceMap,
    inputs: &[InputID],
    first: Vec<Outcome>,
    second: Vec<Outcome>,
)
    requires
        call_ensures(InferenceMap::inputs_to_groups, (idx, inputs), first),
        call_ensures(InferenceMap::inputs_to_groups, (idx, inputs), second),
    ensures
        first@ == second@,
{
}

/// Two answers of `members` for the same group on the same index are
/// equal: the same members, or the same error.
pub proof fn law_repeated_members_agree(
    idx: &InferenceMap,
    group: GroupID,
    first: Result<Vec<InputID>, InferenceError>,
    second: Result<Vec<InputID>, InferenceError>,
)
    requires
        call_ensures(InferenceMap::members, (idx, group), first),
        call_ensures(InferenceMap::members, (idx, group), second),
    ensures
        match (first, second) {
            (Ok(a), Ok(b)) => a@ == b@,
            (Err(a), Err(b)) => a == b,
            _ => false,
        },
{
}

/// Two answers of `all_groups` on the same index are equal.
pub proof fn law_repeated_all_groups_agree(
    idx: &InferenceMap,
    first: HashSet<GroupID>,
    second: HashSet<GroupID>,
)
    requires
        call_ensures(InferenceMap::all_groups, (idx, ), first),
        call_ensures(InferenceMap::all_groups, (idx, ), second),
    ensures
        first@ == second@,
{
}

} // verus!
