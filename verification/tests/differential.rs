use std::collections::BTreeMap as StandardBTreeMap;

use btree::BTree;
use btree::Bound;
use btree::InsertOutcome;
use btree::RemoveOutcome;

#[derive(Clone, Copy, Debug)]
enum Operation {
    Insert { account_id: u64, balance: u64 },
    Remove { account_id: u64 },
    Lookup { account_id: u64 },
    Range { start: u64, end: u64 },
    Iterate,
}

fn assert_insert_outcome(actual: InsertOutcome<u64>, expected: Option<u64>) {
    match (actual, expected) {
        (InsertOutcome::Inserted, None) => {}
        (InsertOutcome::Replaced { previous }, Some(expected_previous)) => {
            assert_eq!(previous, expected_previous);
        }
        (actual, expected) => panic!("insert outcome differs: {actual:?} versus {expected:?}"),
    }
}

fn assert_remove_outcome(actual: RemoveOutcome<u64>, expected: Option<u64>) {
    match (actual, expected) {
        (RemoveOutcome::Missing, None) => {}
        (RemoveOutcome::Removed { value }, Some(expected_value)) => {
            assert_eq!(value, expected_value);
        }
        (actual, expected) => panic!("remove outcome differs: {actual:?} versus {expected:?}"),
    }
}

fn forward<const CAPACITY: usize>(actual: &BTree<u64, u64, CAPACITY>) -> Vec<(u64, u64)> {
    let mut iter = actual.iter();
    let mut entries = Vec::new();
    while let Some((account_id, balance)) = iter.next() {
        entries.push((*account_id, *balance));
    }
    entries
}

fn backward<const CAPACITY: usize>(actual: &BTree<u64, u64, CAPACITY>) -> Vec<(u64, u64)> {
    let mut iter = actual.iter();
    let mut entries = Vec::new();
    while let Some((account_id, balance)) = iter.next_back() {
        entries.push((*account_id, *balance));
    }
    entries
}

fn assert_range_outcome<const CAPACITY: usize>(
    actual: &BTree<u64, u64, CAPACITY>,
    expected: &StandardBTreeMap<u64, u64>,
    start: u64,
    end: u64,
) {
    let mut range = match actual.range((Bound::Included(start), Bound::Included(end))) {
        Ok(range) => range,
        Err(error) => panic!("valid range returned {error:?}"),
    };
    let mut actual_entries = Vec::new();
    while let Some((account_id, balance)) = range.next() {
        actual_entries.push((*account_id, *balance));
    }
    let expected_entries = expected
        .range(start..=end)
        .map(|(account_id, balance)| (*account_id, *balance))
        .collect::<Vec<_>>();

    assert_eq!(actual_entries, expected_entries);
}

fn assert_iteration_outcome<const CAPACITY: usize>(
    actual: &BTree<u64, u64, CAPACITY>,
    expected: &StandardBTreeMap<u64, u64>,
) {
    assert_eq!(
        forward(actual),
        expected.iter().map(|(k, v)| (*k, *v)).collect::<Vec<_>>()
    );
    assert_eq!(
        backward(actual),
        expected.iter().rev().map(|(k, v)| (*k, *v)).collect::<Vec<_>>()
    );
}

fn apply_operation<const CAPACITY: usize>(
    actual: &mut BTree<u64, u64, CAPACITY>,
    expected: &mut StandardBTreeMap<u64, u64>,
    operation: Operation,
) {
    match operation {
        Operation::Insert {
            account_id,
            balance,
        } => assert_insert_outcome(
            actual.insert(account_id, balance),
            expected.insert(account_id, balance),
        ),
        Operation::Remove { account_id } => {
            assert_remove_outcome(actual.remove(&account_id), expected.remove(&account_id));
        }
        Operation::Lookup { account_id } => {
            assert_eq!(actual.get(&account_id), expected.get(&account_id));
        }
        Operation::Range { start, end } => {
            assert_range_outcome(actual, expected, start, end);
        }
        Operation::Iterate => assert_iteration_outcome(actual, expected),
    }

    assert_eq!(actual.len(), expected.len());
    assert_eq!(actual.is_empty(), expected.is_empty());
    assert_eq!(actual.first_key_value(), expected.first_key_value());
    assert_eq!(actual.last_key_value(), expected.last_key_value());
    assert_iteration_outcome(actual, expected);
}

fn assert_operations_match_standard<const CAPACITY: usize>(operations: &[Operation]) {
    let mut actual = BTree::<u64, u64, CAPACITY>::new();
    let mut expected = StandardBTreeMap::new();

    for operation in operations {
        apply_operation(&mut actual, &mut expected, *operation);
    }
}

fn assert_all_capacities_match_standard(operations: &[Operation]) {
    assert_operations_match_standard::<3>(operations);
    assert_operations_match_standard::<4>(operations);
    assert_operations_match_standard::<7>(operations);
    assert_operations_match_standard::<32>(operations);
}

fn boundary_sequences() -> Vec<Vec<Operation>> {
    let ascending = (1_001_u64..=1_096)
        .map(|account_id| Operation::Insert {
            account_id,
            balance: account_id * 100,
        })
        .collect::<Vec<_>>();
    let descending = (1_001_u64..=1_096)
        .rev()
        .map(|account_id| Operation::Insert {
            account_id,
            balance: account_id * 100,
        })
        .collect::<Vec<_>>();
    let replacements = (1_001_u64..=1_064)
        .flat_map(|account_id| {
            [
                Operation::Insert {
                    account_id,
                    balance: account_id * 100,
                },
                Operation::Insert {
                    account_id,
                    balance: account_id * 125,
                },
            ]
        })
        .collect::<Vec<_>>();
    let merge_cascade = ascending
        .iter()
        .copied()
        .chain((1_001_u64..=1_096).map(|account_id| Operation::Remove { account_id }))
        .collect::<Vec<_>>();

    vec![
        Vec::new(),
        ascending,
        descending,
        replacements,
        merge_cascade,
    ]
}

#[test]
fn boundary_sequences_match_standard_map_at_all_planned_capacities() {
    for operations in boundary_sequences() {
        assert_all_capacities_match_standard(&operations);
    }
}

#[test]
fn mixed_operation_sequence_matches_standard_map() {
    let mut operations = Vec::new();
    for sequence in 0_u64..300 {
        let account_id = 1_001 + (sequence * 41) % 128;
        let operation = match sequence % 7 {
            0 | 1 | 2 => Operation::Insert {
                account_id,
                balance: 100 + sequence * 3,
            },
            3 | 4 => Operation::Remove { account_id },
            5 => Operation::Lookup { account_id },
            _ => {
                let other = 1_001 + (sequence * 13) % 128;
                Operation::Range {
                    start: account_id.min(other),
                    end: account_id.max(other),
                }
            }
        };
        operations.push(operation);
        if sequence % 50 == 49 {
            operations.push(Operation::Iterate);
        }
    }
    assert_all_capacities_match_standard(&operations);
}
