//! The index itself: built once, then only read.

use vstd::prelude::*;
use vstd::std_specs::hash::spec_keys_iter;
use vstd::std_specs::iter::IteratorSpec;
use std::collections::{HashMap, HashSet};
use crate::construct::{drop_empty_groups, owners};
use crate::error::InferenceError;
use crate::input::{InputID, InputIDVal};
use crate::json::{decode_groups, group_lists, json_groups};
use crate::model::{
    distinct, lemma_distinct_contains, lemma_distinct_images, lemma_distinct_push,
    lemma_typed_contains, nonempty_groups, sentinel_of, typed, GroupID, InferenceView, Outcome,
};

verus! {

broadcast use vstd::seq_lib::lemma_seq_contains_after_push;

/// Lookup structure between inputs and inferred groups.
///
/// It holds the groups that list at least one input, each with its list,
/// and for every listed input one group that lists it, its owner. Nothing
/// changes it once it is built.
pub struct InferenceMap {
    groups: HashMap<GroupID, Vec<InputIDVal>>,
    memberships: HashMap<InputIDVal, GroupID>,
}

impl View for InferenceMap {
    type V = InferenceView;

    closed spec fn view(&self) -> InferenceView {
        InferenceView { groups: group_lists(self.groups@), memberships: self.memberships@ }
    }
}

/// The signed code of `outcome`.
pub fn sentinel(outcome: Outcome) -> (code: i128)
    ensures
        code == sentinel_of(outcome),
{
    match outcome {
        Ok(group) => group as i128,
        Err(input) => -(input.value as i128),
    }
}

/// Appends `item` to `out` where it is `fresh`, that is, where it does not
/// occur in `done`.
fn push_fresh<T>(out: &mut Vec<T>, item: T, fresh: bool, Ghost(done): Ghost<Seq<T>>)
    requires
        old(out)@ == distinct(done),
        fresh <==> !done.contains(item),
    ensures
        final(out)@ == distinct(done.push(item)),
{
    proof {
        lemma_distinct_push(done, item);
    }
    if fresh {
        out.push(item);
    }
}

/// `built` is what building an index from `bytes` gives: an index of the
/// group data that the bytes hold, or a format error where they hold none.
pub open spec fn built_from(bytes: Seq<u8>, built: Result<InferenceMap, InferenceError>) -> bool {
    match json_groups(bytes) {
        Some(source) => built matches Ok(idx) && idx@.indexes(source),
        None => built matches Err(e) && e == InferenceError::Format,
    }
}

impl InferenceMap {
    #[verifier::type_invariant]
    spec fn inv(&self) -> bool {
        self@.wf()
    }

    /// Builds the index of `source`: its non-empty groups, and for each
    /// input that one of them lists, a group that lists it. Where several
    /// groups list one input, which of them owns it is not fixed.
    pub fn from_groups(source: HashMap<GroupID, Vec<InputIDVal>>) -> (idx: Self)
        ensures
            idx@.indexes(group_lists(source@)),
    {
        let ghost given = group_lists(source@);
        let groups = drop_empty_groups(source);
        let memberships = owners(&groups);
        proof {
            let lists = group_lists(groups@);
            assert(lists =~= nonempty_groups(given));
            assert(lists.dom() =~= groups@.dom());
            assert forall|v: InputIDVal| #[trigger] memberships@.contains_key(v) implies {
                &&& lists.contains_key(memberships@[v])
                &&& lists[memberships@[v]].contains(v)
            } by {
                assert(groups@.contains_key(memberships@[v]));
            }
        }
        InferenceMap { groups, memberships }
    }

    /// Builds the index from the bytes of a results file: a JSON object
    /// whose keys are group ids and whose values are arrays of input ids.
    /// Fails with `InferenceError::Format` exactly when the bytes are not
    /// such an object.
    pub fn new_from_json(bytes: &[u8]) -> (built: Result<Self, InferenceError>)
        ensures
            built_from(bytes@, built),
    {
        match decode_groups(bytes) {
            Ok(source) => Ok(InferenceMap::from_groups(source)),
            Err(_) => Err(InferenceError::Format),
        }
    }

    /// Builds the index from what reading a results file gave: its bytes,
    /// or nothing where the file could not be opened or read. Fails with
    /// `InferenceError::Io` exactly when there are no bytes, and as
    /// `new_from_json` does on the bytes otherwise.
    pub fn new_from_read(contents: Option<&[u8]>) -> (built: Result<Self, InferenceError>)
        ensures
            match contents {
                Some(bytes) => built_from(bytes@, built),
                None => built matches Err(e) && e == InferenceError::Io,
            },
    {
        match contents {
            Some(bytes) => InferenceMap::new_from_json(bytes),
            None => Err(InferenceError::Io),
        }
    }

    /// The outcomes for `inputs`: for an input that some group lists, the
    /// group that owns it; for any other, the input itself. Each outcome
    /// occurs once, at the place of its first occurrence.
    pub fn inputs_to_groups(&self, inputs: &[InputID]) -> (found: Vec<Outcome>)
        ensures
            self@.wf(),
            found@ == self@.outcomes(inputs@),
            found@.no_duplicates(),
            forall|o: Outcome|
                found@.contains(o) <==> exists|i: int|
                    0 <= i < inputs@.len() && self@.lookup(#[trigger] inputs@[i]) == o,
    {
        proof {
            use_type_invariant(self);
        }
        let ghost lookup = |id: InputID| self@.lookup(id);
        let mut found: Vec<Outcome> = Vec::new();
        let mut seen_groups: HashSet<GroupID> = HashSet::new();
        let mut seen_inputs: HashSet<InputIDVal> = HashSet::new();
        for i in 0..inputs.len()
            invariant
                lookup == |id: InputID| self@.lookup(id),
                found@ == distinct(inputs@.take(i as int).map_values(lookup)),
                forall|g: GroupID| #[trigger]
                    seen_groups@.contains(g) <==> inputs@.take(i as int).map_values(
                        lookup,
                    ).contains(Ok(g)),
                forall|v: InputIDVal| #[trigger]
                    seen_inputs@.contains(v) <==> inputs@.take(i as int).map_values(
                        lookup,
                    ).contains(Err(InputID { value: v })),
        {
            let id = inputs[i];
            let ghost done = inputs@.take(i as int).map_values(lookup);
            proof {
                assert(inputs@.take(i + 1).map_values(lookup) =~= done.push(lookup(id)));
            }
            match self.memberships.get(&id.value) {
                Some(group) => {
                    let fresh = seen_groups.insert(*group);
                    push_fresh(&mut found, Ok(*group), fresh, Ghost(done));
                },
                None => {
                    let fresh = seen_inputs.insert(id.value);
                    push_fresh(&mut found, Err(id), fresh, Ghost(done));
                },
            }
        }
        proof {
            inputs@.lemma_take_len();
            lemma_distinct_images(inputs@, lookup);
        }
        found
    }

    /// The outcomes for `inputs` in the signed encoding, where a group is
    /// its identifier and an input that no group owns is the negation of its
    /// raw value. Each code occurs once, at the place of its first
    /// occurrence. The code 0 stands for group 0 and for the unowned input
    /// 0 alike: a caller that must tell them apart uses `inputs_to_groups`.
    pub fn inputs_to_sentinels(&self, inputs: &[InputID]) -> (codes: Vec<i128>)
        ensures
            self@.wf(),
            codes@ == self@.sentinels(inputs@),
            codes@.no_duplicates(),
            forall|code: i128|
                codes@.contains(code) <==> exists|i: int|
                    0 <= i < inputs@.len() && sentinel_of(self@.lookup(#[trigger] inputs@[i]))
                        == code,
    {
        proof {
            use_type_invariant(self);
        }
        let ghost encode = |id: InputID| sentinel_of(self@.lookup(id));
        let mut codes: Vec<i128> = Vec::new();
        let mut seen: HashSet<i128> = HashSet::new();
        for i in 0..inputs.len()
            invariant
                encode == |id: InputID| sentinel_of(self@.lookup(id)),
                codes@ == distinct(inputs@.take(i as int).map_values(encode)),
                forall|code: i128| #[trigger]
                    seen@.contains(code) <==> inputs@.take(i as int).map_values(encode).contains(
                        code,
                    ),
        {
            let id = inputs[i];
            let ghost done = inputs@.take(i as int).map_values(encode);
            proof {
                assert(inputs@.take(i + 1).map_values(encode) =~= done.push(encode(id)));
            }
            let code = match self.memberships.get(&id.value) {
                Some(group) => sentinel(Ok(*group)),
                None => sentinel(Err(id)),
            };
            let fresh = seen.insert(code);
            push_fresh(&mut codes, code, fresh, Ghost(done));
        }
        proof {
            inputs@.lemma_take_len();
            lemma_distinct_images(inputs@, encode);
        }
        codes
    }

    /// The members of `group`, each once, in the order in which the group
    /// first lists them. Fails with `InferenceError::InvalidGroup` exactly
    /// when the index holds no such group.
    pub fn members(&self, group: GroupID) -> (answer: Result<Vec<InputID>, InferenceError>)
        ensures
            self@.wf(),
            match answer {
                Ok(ids) => {
                    &&& self@.groups.contains_key(group)
                    &&& ids@ == self@.members(group)
                    &&& ids@.no_duplicates()
                    &&& forall|id: InputID|
                        ids@.contains(id) <==> self@.groups[group].contains(id.value)
                },
                Err(e) => !self@.groups.contains_key(group) && e == InferenceError::InvalidGroup(
                    group,
                ),
            },
    {
        proof {
            use_type_invariant(self);
        }
        match self.groups.get(&group) {
            Some(values) => {
                let mut ids: Vec<InputID> = Vec::new();
                let mut seen: HashSet<InputIDVal> = HashSet::new();
                for i in 0..values.len()
                    invariant
                        ids@ == distinct(typed(values@.take(i as int))),
                        forall|v: InputIDVal| #[trigger]
                            seen@.contains(v) <==> values@.take(i as int).contains(v),
                {
                    let value = values[i];
                    let ghost done = values@.take(i as int);
                    proof {
                        values@.lemma_take_succ_push(i as int);
                        assert(typed(done.push(value)) =~= typed(done).push(InputID { value }));
                        lemma_typed_contains(done, InputID { value });
                    }
                    let fresh = seen.insert(value);
                    push_fresh(&mut ids, InputID::new(value), fresh, Ghost(typed(done)));
                }
                proof {
                    values@.lemma_take_len();
                    lemma_distinct_images(values@, |v: InputIDVal| InputID { value: v });
                    assert forall|id: InputID| ids@.contains(id) <==> values@.contains(
                        id.value,
                    ) by {
                        lemma_typed_contains(values@, id);
                        lemma_distinct_contains(typed(values@));
                    }
                }
                Ok(ids)
            },
            None => Err(InferenceError::InvalidGroup(group)),
        }
    }

    /// The identifiers of all groups of the index.
    pub fn all_groups(&self) -> (ids: HashSet<GroupID>)
        ensures
            self@.wf(),
            ids@ == self@.all_groups(),
    {
        proof {
            use_type_invariant(self);
        }
        let mut ids: HashSet<GroupID> = HashSet::new();
        for group in it: self.groups.keys()
            invariant
                it.seq() == spec_keys_iter(&self.groups).remaining(),
                forall|g: GroupID|
                    ids@.contains(g) <==> exists|j: int|
                        0 <= j < it.index() && *(#[trigger] it.seq()[j]) == g,
        {
            ids.insert(*group);
        }
        proof {
            let keys = spec_keys_iter(&self.groups).remaining();
            assert(keys.unref().to_set() == self.groups@.dom());
            assert forall|g: GroupID| ids@.contains(g) <==> self.groups@.dom().contains(g) by {
                if ids@.contains(g) {
                    let j = choose|j: int| 0 <= j < keys.len() && *(#[trigger] keys[j]) == g;
                    assert(keys.unref()[j] == g);
                }
                if self.groups@.dom().contains(g) {
                    assert(keys.unref().to_set().contains(g));
                    let j = choose|j: int| 0 <= j < keys.unref().len() && keys.unref()[j] == g;
                    assert(*keys[j] == g);
                }
            }
            assert(ids@ =~= self@.groups.dom());
        }
        ids
    }
}

} // verus!
