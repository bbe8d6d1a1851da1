//! The two steps of building an index: dropping the groups that list
//! nothing, and finding an owner for every listed input.

use vstd::prelude::*;
use vstd::std_specs::hash::spec_hash_map_iter;
use vstd::std_specs::iter::IteratorSpec;
use std::collections::HashMap;
use crate::input::InputIDVal;
use crate::json::group_lists;
use crate::model::{listed, GroupID};

verus! {

broadcast use vstd::seq_lib::lemma_seq_contains_after_push;

/// Some pair among the first `upto` of `pairs` lists `value`.
spec fn listed_among(
    pairs: Seq<(&GroupID, &Vec<InputIDVal>)>,
    upto: int,
    value: InputIDVal,
) -> bool {
    exists|j: int| 0 <= j < upto && (#[trigger] pairs[j]).1@.contains(value)
}

/// The identifiers of the groups that list nothing.
fn empty_group_ids(groups: &HashMap<GroupID, Vec<InputIDVal>>) -> (ids: Vec<GroupID>)
    ensures
        forall|g: GroupID|
            ids@.contains(g) <==> groups@.contains_key(g) && groups@[g]@.len() == 0,
{
    let mut ids: Vec<GroupID> = Vec::new();
    for (group, members) in it: groups.iter()
        invariant
            it.seq() == spec_hash_map_iter(groups).remaining(),
            forall|j: int|
                0 <= j < it.index() && (#[trigger] it.seq()[j]).1@.len() == 0 ==> ids@.contains(
                    *it.seq()[j].0,
                ),
            forall|g: GroupID| #[trigger]
                ids@.contains(g) ==> groups@.contains_key(g) && groups@[g]@.len() == 0,
    {
        if members.len() == 0 {
            ids.push(*group);
        }
    }
    proof {
        let pairs = spec_hash_map_iter(groups).remaining();
        assert forall|g: GroupID|
            groups@.contains_key(g) && groups@[g]@.len() == 0 implies ids@.contains(g) by {
            assert(pairs.contains((&g, &groups@[g])));
            let j = choose|j: int| 0 <= j < pairs.len() && pairs[j] == (&g, &groups@[g]);
            assert(pairs[j].1@.len() == 0);
        }
    }
    ids
}

/// `source` without its groups that list nothing.
pub(crate) fn drop_empty_groups(source: HashMap<GroupID, Vec<InputIDVal>>) -> (kept: HashMap<
    GroupID,
    Vec<InputIDVal>,
>)
    ensures
        forall|g: GroupID|
            kept@.contains_key(g) <==> source@.contains_key(g) && source@[g]@.len() > 0,
        forall|g: GroupID| kept@.contains_key(g) ==> kept@[g] == source@[g],
{
    let empty = empty_group_ids(&source);
    let mut kept = source;
    for i in 0..empty.len()
        invariant
            forall|g: GroupID|
                empty@.contains(g) <==> source@.contains_key(g) && source@[g]@.len() == 0,
            forall|g: GroupID|
                kept@.contains_key(g) <==> source@.contains_key(g) && !empty@.take(
                    i as int,
                ).contains(g),
            forall|g: GroupID| kept@.contains_key(g) ==> kept@[g] == source@[g],
    {
        proof {
            empty@.lemma_take_succ_push(i as int);
        }
        kept.remove(&empty[i]);
    }
    proof {
        empty@.lemma_take_len();
    }
    kept
}

/// For each input that `groups` lists, a group that lists it: the last
/// such group that the walk over `groups` meets.
pub(crate) fn owners(groups: &HashMap<GroupID, Vec<InputIDVal>>) -> (memberships: HashMap<
    InputIDVal,
    GroupID,
>)
    ensures
        forall|v: InputIDVal|
            memberships@.contains_key(v) <==> listed(group_lists(groups@), v),
        forall|v: InputIDVal| #[trigger]
            memberships@.contains_key(v) ==> groups@.contains_key(memberships@[v])
                && groups@[memberships@[v]]@.contains(v),
{
    let mut memberships: HashMap<InputIDVal, GroupID> = HashMap::new();
    for (group, members) in it: groups.iter()
        invariant
            it.seq() == spec_hash_map_iter(groups).remaining(),
            forall|v: InputIDVal|
                memberships@.contains_key(v) <==> listed_among(it.seq(), it.index(), v),
            forall|v: InputIDVal| #[trigger]
                memberships@.contains_key(v) ==> groups@.contains_key(memberships@[v])
                    && groups@[memberships@[v]]@.contains(v),
    {
        let ghost before = memberships@;
        let ghost pairs = it.seq();
        let ghost at = it.index();
        assert(pairs[at] == (group, members));
        for i in 0..members.len()
            invariant
                groups@.contains_key(*group),
                groups@[*group] == *members,
                forall|v: InputIDVal| #[trigger]
                    memberships@.contains_key(v) <==> before.contains_key(v) || members@.take(
                        i as int,
                    ).contains(v),
                forall|v: InputIDVal| #[trigger]
                    memberships@.contains_key(v) ==> groups@.contains_key(memberships@[v])
                        && groups@[memberships@[v]]@.contains(v),
        {
            proof {
                members@.lemma_take_succ_push(i as int);
            }
            memberships.insert(members[i], *group);
        }
        proof {
            members@.lemma_take_len();
            assert forall|v: InputIDVal|
                memberships@.contains_key(v) <==> listed_among(pairs, at + 1, v) by {
                if listed_among(pairs, at + 1, v) {
                    let j = choose|j: int| 0 <= j < at + 1 && (#[trigger] pairs[j]).1@.contains(v);
                    if j < at {
                        assert(listed_among(pairs, at, v));
                    }
                }
                if before.contains_key(v) {
                    assert(listed_among(pairs, at, v));
                }
                if members@.contains(v) {
                    assert(pairs[at].1@.contains(v));
                }
            }
        }
    }
    proof {
        let pairs = spec_hash_map_iter(groups).remaining();
        let lists = group_lists(groups@);
        assert forall|v: InputIDVal| listed_among(pairs, pairs.len() as int, v) <==> listed(
            lists,
            v,
        ) by {
            if listed_among(pairs, pairs.len() as int, v) {
                let j = choose|j: int|
                    0 <= j < pairs.len() && (#[trigger] pairs[j]).1@.contains(v);
                let g = *pairs[j].0;
                assert(lists.contains_key(g) && lists[g].contains(v));
            }
            if listed(lists, v) {
                let g = choose|g: GroupID| #[trigger] lists.contains_key(g) && lists[g].contains(v);
                assert(pairs.contains((&g, &groups@[g])));
                let j = choose|j: int| 0 <= j < pairs.len() && pairs[j] == (&g, &groups@[g]);
                assert(pairs[j].1@.contains(v));
            }
        }
    }
    memberships
}

} // verus!
