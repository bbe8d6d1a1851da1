use inference::{sentinel, InferenceError, InferenceMap, InputID};
use std::collections::{HashMap, HashSet};

fn index_of(groups: &[(u64, &[u64])]) -> InferenceMap {
    let mut source: HashMap<u64, Vec<u64>> = HashMap::new();
    for (group, members) in groups {
        source.insert(*group, members.to_vec());
    }
    InferenceMap::from_groups(source)
}

fn ids(values: &[u64]) -> Vec<InputID> {
    values.iter().map(|v| InputID::new(*v)).collect()
}

#[test]
fn an_input_identifier_holds_its_value() {
    let id = InputID::new(42);
    assert_eq!(id.value(), 42);
    assert_eq!(id, InputID::new(42));
    assert_ne!(id, InputID::new(43));
    assert_eq!(InputID::new(u64::MAX).value(), u64::MAX);
}

#[test]
fn a_listed_input_resolves_to_its_group() {
    let index = index_of(&[(1, &[10, 11]), (2, &[20])]);
    assert_eq!(index.inputs_to_groups(&ids(&[10])), vec![Ok(1)]);
    assert_eq!(index.inputs_to_groups(&ids(&[11])), vec![Ok(1)]);
    assert_eq!(index.inputs_to_groups(&ids(&[20])), vec![Ok(2)]);
}

#[test]
fn an_unlisted_input_resolves_to_itself() {
    let index = index_of(&[(1, &[10, 11]), (2, &[20])]);
    assert_eq!(index.inputs_to_groups(&ids(&[99])), vec![Err(InputID::new(99))]);
    assert_eq!(index.inputs_to_groups(&ids(&[1])), vec![Err(InputID::new(1))]);
    assert_eq!(index.inputs_to_groups(&ids(&[0])), vec![Err(InputID::new(0))]);
}

#[test]
fn a_member_of_a_dropped_group_is_unlisted() {
    let index = index_of(&[(1, &[]), (2, &[5])]);
    assert_eq!(index.inputs_to_groups(&ids(&[5, 6])), vec![Ok(2), Err(InputID::new(6))]);
}

#[test]
fn outcomes_come_once_in_order_of_first_occurrence() {
    let index = index_of(&[(1, &[10, 11]), (2, &[20])]);
    assert_eq!(
        index.inputs_to_groups(&ids(&[99, 10, 20, 11, 99, 98, 20, 10])),
        vec![Err(InputID::new(99)), Ok(1), Ok(2), Err(InputID::new(98))]
    );
}

#[test]
fn no_inputs_give_no_outcomes() {
    let index = index_of(&[(1, &[10])]);
    assert!(index.inputs_to_groups(&[]).is_empty());
    assert!(index.inputs_to_sentinels(&[]).is_empty());
}

#[test]
fn an_input_of_two_groups_resolves_to_one_of_them() {
    let index = index_of(&[(1, &[10]), (2, &[10, 11])]);
    let found = index.inputs_to_groups(&ids(&[10]));
    assert!(found == vec![Ok(1)] || found == vec![Ok(2)]);
    assert_eq!(index.inputs_to_groups(&ids(&[11])), vec![Ok(2)]);
    assert_eq!(index.members(1), Ok(ids(&[10])));
    assert_eq!(index.members(2), Ok(ids(&[10, 11])));
}

#[test]
fn a_group_and_an_input_of_the_same_number_are_told_apart() {
    let index = index_of(&[(7, &[1])]);
    assert_eq!(index.inputs_to_groups(&ids(&[1, 7])), vec![Ok(7), Err(InputID::new(7))]);
}

#[test]
fn members_are_the_listed_inputs() {
    let index = index_of(&[(1, &[10, 11]), (2, &[20])]);
    assert_eq!(index.members(1), Ok(ids(&[10, 11])));
    assert_eq!(index.members(2), Ok(ids(&[20])));
}

#[test]
fn members_come_once_in_order_of_first_listing() {
    let index = index_of(&[(1, &[30, 10, 30, 20, 10, 10])]);
    assert_eq!(index.members(1), Ok(ids(&[30, 10, 20])));
}

#[test]
fn members_of_every_group_from_all_groups_are_found() {
    let index = index_of(&[(1, &[10]), (2, &[]), (3, &[30, 31])]);
    for group in index.all_groups() {
        let members = index.members(group);
        assert!(members.is_ok());
        assert!(!members.unwrap().is_empty());
    }
}

#[test]
fn members_of_an_unknown_group_are_an_error() {
    let index = index_of(&[(1, &[10, 11])]);
    assert_eq!(index.members(5), Err(InferenceError::InvalidGroup(5)));
    assert_eq!(index.members(0), Err(InferenceError::InvalidGroup(0)));
    assert_eq!(index.members(10), Err(InferenceError::InvalidGroup(10)));
}

#[test]
fn members_of_a_dropped_group_are_an_error() {
    let index = index_of(&[(1, &[10]), (2, &[])]);
    assert_eq!(index.members(2), Err(InferenceError::InvalidGroup(2)));
}

#[test]
fn a_failed_query_leaves_the_index_usable() {
    let index = index_of(&[(1, &[10, 11])]);
    assert_eq!(index.members(9), Err(InferenceError::InvalidGroup(9)));
    assert_eq!(index.members(1), Ok(ids(&[10, 11])));
    let expected: HashSet<u64> = [1].into_iter().collect();
    assert_eq!(index.all_groups(), expected);
}

#[test]
fn all_groups_lists_every_group_once() {
    let index = index_of(&[(1, &[10]), (2, &[20]), (300, &[1, 2, 3])]);
    let expected: HashSet<u64> = [1, 2, 300].into_iter().collect();
    assert_eq!(index.all_groups(), expected);
}

#[test]
fn repeated_queries_give_equal_answers() {
    let index = index_of(&[(1, &[10, 11]), (2, &[20]), (3, &[11])]);
    let inputs = ids(&[11, 10, 5, 20, 11]);
    let first = index.inputs_to_groups(&inputs);
    assert_eq!(index.members(1), index.members(1));
    assert_eq!(index.members(4), index.members(4));
    assert_eq!(index.all_groups(), index.all_groups());
    assert_eq!(index.inputs_to_sentinels(&inputs), index.inputs_to_sentinels(&inputs));
    assert_eq!(index.inputs_to_groups(&inputs), first);
    assert_eq!(index.inputs_to_groups(&inputs), first);
}

#[test]
fn the_signed_code_of_a_group_is_its_number() {
    assert_eq!(sentinel(Ok(5)), 5);
    assert_eq!(sentinel(Ok(0)), 0);
    assert_eq!(sentinel(Ok(u64::MAX)), 18446744073709551615);
}

#[test]
fn the_signed_code_of_an_unowned_input_is_its_negation() {
    assert_eq!(sentinel(Err(InputID::new(7))), -7);
    assert_eq!(sentinel(Err(InputID::new(0))), 0);
    assert_eq!(sentinel(Err(InputID::new(u64::MAX))), -18446744073709551615);
}

#[test]
fn signed_codes_of_inputs() {
    let index = index_of(&[(1, &[10, 11]), (2, &[20])]);
    assert_eq!(index.inputs_to_sentinels(&ids(&[10, 11, 99])), vec![1, -99]);
    assert_eq!(index.inputs_to_sentinels(&ids(&[99, 20, 99, 10, 1])), vec![-99, 2, 1, -1]);
}

#[test]
fn group_zero_and_the_unowned_input_zero_share_a_code() {
    let index = index_of(&[(0, &[5])]);
    assert_eq!(index.inputs_to_groups(&ids(&[0, 5])), vec![Err(InputID::new(0)), Ok(0)]);
    assert_eq!(index.inputs_to_sentinels(&ids(&[0, 5])), vec![0]);
}
