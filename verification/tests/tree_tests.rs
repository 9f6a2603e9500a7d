use std::collections::BTreeMap as StandardBTreeMap;

use btree::node::Node;
use btree::BTree;
use btree::InsertOutcome;
use btree::RemoveOutcome;

type AccountBalances = BTree<String, u64, 3>;

fn account(id: u64) -> String {
    format!("account-2026-{id}")
}

fn key(text: &str) -> String {
    String::from(text)
}

fn entries_of<const CAPACITY: usize>(tree: &BTree<String, u64, CAPACITY>) -> Vec<(String, u64)> {
    let mut iter = tree.iter();
    let mut entries = Vec::new();
    while let Some((account_id, balance)) = iter.next() {
        entries.push((account_id.clone(), *balance));
    }
    entries
}

fn reversed_entries_of<const CAPACITY: usize>(
    tree: &BTree<String, u64, CAPACITY>,
) -> Vec<(String, u64)> {
    let mut iter = tree.iter();
    let mut entries = Vec::new();
    while let Some((account_id, balance)) = iter.next_back() {
        entries.push((account_id.clone(), *balance));
    }
    entries
}

fn account_ids_of<const CAPACITY: usize>(tree: &BTree<String, u64, CAPACITY>) -> Vec<String> {
    entries_of(tree)
        .into_iter()
        .map(|(account_id, _balance)| account_id)
        .collect()
}

fn assert_valid<const CAPACITY: usize>(tree: &BTree<String, u64, CAPACITY>) {
    assert_eq!(tree.validate(), Some(tree.len()), "stored length matches leaf total");
}

fn leaf_balances() -> AccountBalances {
    BTree::from_root(Node::from_sorted_entries(vec![
        (key("account-2026-1001"), 12_500),
        (key("account-2026-2001"), 25_000),
        (key("account-2026-3001"), 37_500),
    ]))
    .unwrap()
}

fn branched_balances() -> AccountBalances {
    BTree::from_root(Node::from_sorted_branch(
        Node::from_sorted_entries(vec![
            (key("account-2026-1001"), 12_500),
            (key("account-2026-1501"), 18_750),
        ]),
        (
            key("account-2026-2001"),
            Node::from_sorted_entries(vec![
                (key("account-2026-2001"), 25_000),
                (key("account-2026-2501"), 31_250),
            ]),
        ),
        vec![(
            key("account-2026-3001"),
            Node::from_sorted_entries(vec![
                (key("account-2026-3001"), 37_500),
                (key("account-2026-3501"), 43_750),
            ]),
        )],
    ))
    .unwrap()
}

fn account_balances(account_ids: impl IntoIterator<Item = u64>) -> AccountBalances {
    let mut balances = AccountBalances::new();
    for account_id in account_ids {
        assert_eq!(
            balances.insert(account(account_id), account_id * 10),
            InsertOutcome::Inserted
        );
    }
    balances
}

fn insert_accounts_and_validate(account_ids: impl IntoIterator<Item = u64>) {
    let mut balances = AccountBalances::new();
    let mut inserted_accounts = Vec::new();

    for account_id in account_ids {
        let account_key = account(account_id);
        let value = account_id * 10;
        let outcome = balances.insert(account_key.clone(), value);
        inserted_accounts.push((account_key, value));

        assert_eq!(outcome, InsertOutcome::Inserted);
        assert_valid(&balances);
        assert_eq!(balances.len(), inserted_accounts.len());
        for (inserted_key, balance) in &inserted_accounts {
            assert_eq!(balances.get(inserted_key), Some(balance));
        }
    }
}

fn remove_accounts_and_validate(account_ids: impl IntoIterator<Item = u64>) {
    let mut balances = AccountBalances::new();
    let mut retained = (1_001_u64..=1_064).collect::<Vec<_>>();
    for account_id in &retained {
        assert_eq!(
            balances.insert(account(*account_id), account_id * 10),
            InsertOutcome::Inserted
        );
    }

    for account_id in account_ids {
        let outcome = balances.remove(&account(account_id));
        let retained_index = retained
            .binary_search(&account_id)
            .expect("removal order must contain each inserted account exactly once");
        retained.remove(retained_index);

        assert_eq!(
            outcome,
            RemoveOutcome::Removed {
                value: account_id * 10
            }
        );
        assert_valid(&balances);
        assert_eq!(balances.len(), retained.len());
        assert_eq!(
            account_ids_of(&balances),
            retained
                .iter()
                .map(|retained_id| account(*retained_id))
                .collect::<Vec<_>>()
        );
    }
}

fn u16_entries<const CAPACITY: usize>(tree: &BTree<u64, u64, CAPACITY>) -> Vec<(u64, u64)> {
    let mut iter = tree.iter();
    let mut entries = Vec::new();
    while let Some((account_id, balance)) = iter.next() {
        entries.push((*account_id, *balance));
    }
    entries
}

#[test]
fn mutable_lookups_match_standard_map_for_present_and_missing_accounts() {
    let mut actual = BTree::<u64, u64, 3>::new();
    let mut expected = StandardBTreeMap::new();

    assert_eq!(actual.insert(1_001, 12_500), InsertOutcome::Inserted);
    assert_eq!(expected.insert(1_001, 12_500), None);

    match (actual.get_mut(&1_001), expected.get_mut(&1_001)) {
        (Some(actual_balance), Some(expected_balance)) => {
            assert_eq!(*actual_balance, *expected_balance);
            *actual_balance = 15_000;
            *expected_balance = 15_000;
        }
        _ => panic!("mutable lookup presence differs"),
    }
    assert_eq!(actual.validate(), Some(actual.len()));
    assert_eq!(actual.len(), expected.len());

    match (actual.get_mut(&2_001), expected.get_mut(&2_001)) {
        (None, None) => {}
        _ => panic!("mutable lookup presence differs"),
    }
    assert_eq!(actual.validate(), Some(actual.len()));
    assert_eq!(actual.len(), expected.len());
    assert_eq!(
        actual.first_key_value().map(|(k, v)| (*k, *v)),
        expected.first_key_value().map(|(k, v)| (*k, *v))
    );
    assert_eq!(
        actual.last_key_value().map(|(k, v)| (*k, *v)),
        expected.last_key_value().map(|(k, v)| (*k, *v))
    );
    assert_eq!(
        u16_entries(&actual),
        expected.iter().map(|(k, v)| (*k, *v)).collect::<Vec<_>>()
    );
}

#[test]
fn new_with_valid_capacity_creates_empty_tree() {
    let balances = AccountBalances::new();

    assert!(balances.is_empty());
    assert_eq!(balances.len(), 0);
}

#[test]
fn new_creates_empty_leaf_root() {
    let balances = AccountBalances::new();

    assert!(balances.root_is_empty_leaf());
    assert_eq!(balances.allocated_entry_capacity(), 0);
}

#[test]
fn default_matches_new() {
    let default_balances = AccountBalances::default();
    let new_balances = AccountBalances::new();

    assert_eq!(default_balances.len(), new_balances.len());
    assert_eq!(default_balances.is_empty(), new_balances.is_empty());
    assert!(default_balances.root_is_empty_leaf());
    assert!(new_balances.root_is_empty_leaf());
}

#[test]
fn clear_on_empty_tree_preserves_empty_root() {
    let mut balances = AccountBalances::new();

    balances.clear();

    assert!(balances.is_empty());
    assert_eq!(balances.len(), 0);
    assert!(balances.root_is_empty_leaf());
    assert_eq!(balances.allocated_entry_capacity(), 0);
    assert_valid(&balances);
}

#[test]
fn clear_on_populated_tree_restores_empty_root() {
    let mut balances = account_balances(1_001..=1_064);

    balances.clear();

    assert!(balances.is_empty());
    assert_eq!(balances.len(), 0);
    assert_eq!(balances.first_key_value(), None);
    assert_eq!(balances.last_key_value(), None);
    assert_eq!(balances.iter().next(), None);
    assert!(balances.root_is_empty_leaf());
    assert_eq!(balances.allocated_entry_capacity(), 0);
    assert_valid(&balances);
}

#[test]
fn extend_adds_new_account_balances() {
    let mut balances = account_balances([1_001]);

    balances.extend(vec![
        (key("account-2026-3001"), 37_500),
        (key("account-2026-2001"), 25_000),
    ]);

    assert_eq!(balances.len(), 3);
    assert_eq!(
        entries_of(&balances),
        [
            (key("account-2026-1001"), 10_010),
            (key("account-2026-2001"), 25_000),
            (key("account-2026-3001"), 37_500),
        ]
    );
    assert_valid(&balances);
}

#[test]
fn extend_duplicate_account_keeps_last_balance() {
    let mut balances = account_balances([1_001]);

    balances.extend(vec![
        (key("account-2026-1001"), 12_500),
        (key("account-2026-1001"), 15_000),
    ]);

    assert_eq!(balances.len(), 1);
    assert_eq!(balances.get(&key("account-2026-1001")), Some(&15_000));
    assert_valid(&balances);
}

#[test]
fn from_iter_builds_ordered_account_map() {
    let balances = AccountBalances::from_entries(vec![
        (key("account-2026-3001"), 37_500),
        (key("account-2026-1001"), 12_500),
        (key("account-2026-2001"), 25_000),
    ]);

    assert_eq!(
        entries_of(&balances),
        [
            (key("account-2026-1001"), 12_500),
            (key("account-2026-2001"), 25_000),
            (key("account-2026-3001"), 37_500),
        ]
    );
    assert_valid(&balances);
}

#[test]
fn from_iter_duplicate_account_keeps_last_balance() {
    let balances = AccountBalances::from_entries(vec![
        (key("account-2026-1001"), 12_500),
        (key("account-2026-1001"), 15_000),
    ]);

    assert_eq!(balances.len(), 1);
    assert_eq!(balances.get(&key("account-2026-1001")), Some(&15_000));
    assert_valid(&balances);
}

#[test]
fn shared_into_iter_yields_borrowed_entries() {
    let balances = account_balances([3_001, 1_001, 2_001]);

    let entries = entries_of(&balances);

    assert_eq!(
        entries,
        [
            (key("account-2026-1001"), 10_010),
            (key("account-2026-2001"), 20_010),
            (key("account-2026-3001"), 30_010),
        ]
    );
    assert_eq!(balances.get(&key("account-2026-2001")), Some(&20_010));
}

#[test]
fn owned_into_iter_yields_owned_entries() {
    let balances = account_balances([3_001, 1_001, 4_001, 2_001]);

    let entries = balances.into_entries();

    assert_eq!(
        entries,
        [
            (key("account-2026-1001"), 10_010),
            (key("account-2026-2001"), 20_010),
            (key("account-2026-3001"), 30_010),
            (key("account-2026-4001"), 40_010),
        ]
    );
}

#[test]
fn empty_tree_accessors_report_absence() {
    let balances = AccountBalances::new();

    let first = balances.first_key_value();
    let last = balances.last_key_value();

    assert_eq!(first, None);
    assert_eq!(last, None);
}

#[test]
fn get_on_empty_tree_returns_none() {
    let balances = AccountBalances::new();

    assert_eq!(balances.get(&key("account-2026-1001")), None);
}

#[test]
fn get_existing_account_returns_balance() {
    let balances = leaf_balances();

    assert_eq!(balances.get(&key("account-2026-2001")), Some(&25_000));
}

#[test]
fn get_missing_account_returns_none() {
    let balances = leaf_balances();

    assert_eq!(balances.get(&key("account-2026-2501")), None);
}

#[test]
fn get_with_str_finds_owned_string_key() {
    let balances = leaf_balances();
    let borrowed_account_id: &str = "account-2026-3001";

    assert_eq!(balances.get(&key(borrowed_account_id)), Some(&37_500));
}

#[test]
fn get_in_multilevel_tree_follows_branch_path() {
    let balances = branched_balances();

    assert_eq!(balances.get(&key("account-2026-3501")), Some(&43_750));
}

#[test]
fn branched_tree_accessors_follow_outer_leaves() {
    let balances = branched_balances();

    assert_eq!(
        balances.first_key_value(),
        Some((&key("account-2026-1001"), &12_500))
    );
    assert_eq!(
        balances.last_key_value(),
        Some((&key("account-2026-3501"), &43_750))
    );
}

#[test]
fn pop_first_on_empty_tree_returns_none() {
    let mut balances = AccountBalances::new();

    let popped = balances.pop_first();

    assert_eq!(popped, None);
    assert!(balances.root_is_empty_leaf());
    assert_valid(&balances);
}

#[test]
fn pop_first_removes_least_entry() {
    let mut balances = branched_balances();

    let popped = balances.pop_first();

    assert_eq!(popped, Some((key("account-2026-1001"), 12_500)));
    assert_eq!(balances.len(), 5);
    assert_eq!(
        balances.first_key_value(),
        Some((&key("account-2026-1501"), &18_750))
    );
    assert_valid(&balances);
}

#[test]
fn pop_last_on_empty_tree_returns_none() {
    let mut balances = AccountBalances::new();

    let popped = balances.pop_last();

    assert_eq!(popped, None);
    assert!(balances.root_is_empty_leaf());
    assert_valid(&balances);
}

#[test]
fn pop_last_removes_greatest_entry() {
    let mut balances = branched_balances();

    let popped = balances.pop_last();

    assert_eq!(popped, Some((key("account-2026-3501"), 43_750)));
    assert_eq!(balances.len(), 5);
    assert_eq!(
        balances.last_key_value(),
        Some((&key("account-2026-3001"), &37_500))
    );
    assert_valid(&balances);
}

#[test]
fn get_mut_updates_only_selected_account_balance() {
    let mut balances = branched_balances();

    let updated = balances.get_mut(&key("account-2026-2501")).map(|balance| {
        *balance = 32_000;
    });

    assert_eq!(updated, Some(()));
    assert_eq!(balances.get(&key("account-2026-2501")), Some(&32_000));
    assert_eq!(balances.get(&key("account-2026-2001")), Some(&25_000));
    assert_eq!(balances.get(&key("account-2026-3001")), Some(&37_500));
}

#[test]
fn get_mut_missing_account_preserves_tree() {
    let mut balances = leaf_balances();

    let missing = balances.get_mut(&key("account-2026-2501"));

    assert_eq!(missing, None);
    assert_eq!(
        balances.first_key_value(),
        Some((&key("account-2026-1001"), &12_500))
    );
    assert_eq!(
        balances.last_key_value(),
        Some((&key("account-2026-3001"), &37_500))
    );
}

#[test]
fn contains_key_for_existing_account_returns_true() {
    let balances = leaf_balances();

    assert!(balances.contains_key(&key("account-2026-1001")));
}

#[test]
fn contains_key_for_missing_account_returns_false() {
    let balances = leaf_balances();

    assert!(!balances.contains_key(&key("account-2026-2501")));
}

#[test]
fn insert_into_empty_tree_returns_inserted() {
    let mut balances = AccountBalances::new();

    let outcome = balances.insert(key("account-2026-1001"), 12_500);

    assert_eq!(outcome, InsertOutcome::Inserted);
    assert_eq!(balances.len(), 1);
    assert_eq!(balances.get(&key("account-2026-1001")), Some(&12_500));
}

#[test]
fn insert_existing_account_returns_previous_balance_and_preserves_length() {
    let mut balances = AccountBalances::new();
    let inserted = balances.insert(key("account-2026-1001"), 12_500);

    let replaced = balances.insert(key("account-2026-1001"), 15_000);

    assert_eq!(inserted, InsertOutcome::Inserted);
    assert_eq!(replaced, InsertOutcome::Replaced { previous: 12_500 });
    assert_eq!(balances.len(), 1);
    assert_eq!(balances.get(&key("account-2026-1001")), Some(&15_000));
}

#[test]
fn stable_root_insertion_preserves_height() {
    let mut balances = AccountBalances::new();

    for account_id in [1_001_u64, 2_001, 3_001] {
        let outcome = balances.insert(account(account_id), account_id * 10);
        assert_eq!(outcome, InsertOutcome::Inserted);
    }

    assert_eq!(balances.height(), 0);
    assert_eq!(balances.len(), 3);
}

#[test]
fn leaf_root_split_increases_height() {
    let mut balances = AccountBalances::new();

    for account_id in [1_001_u64, 2_001, 3_001, 4_001] {
        let outcome = balances.insert(account(account_id), account_id * 10);
        assert_eq!(outcome, InsertOutcome::Inserted);
    }

    assert_eq!(balances.height(), 1);
    assert_eq!(balances.len(), 4);
    assert_eq!(balances.get(&key("account-2026-1001")), Some(&10_010));
    assert_eq!(balances.get(&key("account-2026-4001")), Some(&40_010));
}

#[test]
fn branch_root_split_increases_height() {
    let mut balances = AccountBalances::new();

    for sequence in 1_u64..=10 {
        let account_id = 1_000 + sequence;
        let outcome = balances.insert(account(account_id), account_id * 10);
        assert_eq!(outcome, InsertOutcome::Inserted);
    }

    assert_eq!(balances.height(), 2);
    assert_eq!(balances.len(), 10);
    assert_eq!(balances.get(&key("account-2026-1001")), Some(&10_010));
    assert_eq!(balances.get(&key("account-2026-1010")), Some(&10_100));
}

#[test]
fn insert_new_minimum_preserves_ancestor_routing() {
    let mut balances = AccountBalances::new();
    for sequence in 1_u64..=10 {
        let account_id = 1_000 + sequence;
        let outcome = balances.insert(account(account_id), account_id * 10);
        assert_eq!(outcome, InsertOutcome::Inserted);
    }

    let outcome = balances.insert(key("account-2026-0501"), 5_010);

    assert_eq!(outcome, InsertOutcome::Inserted);
    assert_eq!(balances.len(), 11);
    assert_valid(&balances);
    assert_eq!(
        balances.first_key_value(),
        Some((&key("account-2026-0501"), &5_010))
    );
    assert_eq!(balances.height(), 2);
    assert_eq!(balances.get(&key("account-2026-1010")), Some(&10_100));
}

#[test]
fn ascending_insertions_preserve_tree_invariants() {
    insert_accounts_and_validate(1_001_u64..=1_064);
}

#[test]
fn descending_insertions_preserve_tree_invariants() {
    insert_accounts_and_validate((1_001_u64..=1_064).rev());
}

#[test]
fn interleaved_insertions_preserve_tree_invariants() {
    let account_ids = (0_u64..32).flat_map(|offset| [1_001 + offset, 1_064 - offset]);

    insert_accounts_and_validate(account_ids);
}

#[test]
fn remove_missing_account_preserves_tree() {
    let mut balances = leaf_balances();

    let outcome = balances.remove(&key("account-2026-2501"));

    assert_eq!(outcome, RemoveOutcome::Missing);
    assert_eq!(balances.len(), 3);
    assert_eq!(balances.get(&key("account-2026-2001")), Some(&25_000));
    assert_valid(&balances);
}

#[test]
fn remove_from_occupied_root_leaf_returns_value() {
    let mut balances = leaf_balances();

    let outcome = balances.remove(&key("account-2026-2001"));

    assert_eq!(outcome, RemoveOutcome::Removed { value: 25_000 });
    assert_eq!(balances.len(), 2);
    assert!(!balances.contains_key(&key("account-2026-2001")));
    assert_valid(&balances);
}

#[test]
fn remove_with_str_finds_owned_string_key() {
    let mut balances = leaf_balances();
    let borrowed_account_id: &str = "account-2026-3001";

    let outcome = balances.remove(&key(borrowed_account_id));

    assert_eq!(outcome, RemoveOutcome::Removed { value: 37_500 });
    assert_eq!(
        balances.last_key_value().map(|(account_id, _value)| account_id.as_str()),
        Some("account-2026-2001")
    );
}

#[test]
fn remove_last_account_restores_empty_root() {
    let mut balances = AccountBalances::new();
    let inserted = balances.insert(key("account-2026-1001"), 12_500);

    let outcome = balances.remove(&key("account-2026-1001"));

    assert_eq!(inserted, InsertOutcome::Inserted);
    assert_eq!(outcome, RemoveOutcome::Removed { value: 12_500 });
    assert!(balances.is_empty());
    assert!(balances.root_is_empty_leaf());
    assert_valid(&balances);
}

#[test]
fn single_child_root_collapses_one_level() {
    let mut balances = account_balances([1_001, 2_001, 3_001, 4_001]);
    assert_eq!(balances.height(), 1);

    let outcome = balances.remove(&key("account-2026-4001"));

    assert_eq!(outcome, RemoveOutcome::Removed { value: 40_010 });
    assert_eq!(balances.height(), 0);
    assert_eq!(balances.len(), 3);
    assert_valid(&balances);
}

#[test]
fn occupied_root_branch_preserves_height() {
    let mut balances = branched_balances();
    assert_eq!(balances.height(), 1);

    let outcome = balances.remove(&key("account-2026-3501"));

    assert_eq!(outcome, RemoveOutcome::Removed { value: 43_750 });
    assert_eq!(balances.height(), 1);
    assert_eq!(balances.len(), 5);
    assert!(!balances.contains_key(&key("account-2026-3501")));
    assert_valid(&balances);
}

#[test]
fn remove_new_minimum_refreshes_ancestor_routing() {
    let mut balances = account_balances(1_001..=1_032);

    let outcome = balances.remove(&key("account-2026-1001"));

    assert_eq!(outcome, RemoveOutcome::Removed { value: 10_010 });
    assert_eq!(
        balances.first_key_value().map(|(account_id, _value)| account_id.as_str()),
        Some("account-2026-1002")
    );
    assert_eq!(balances.get(&key("account-2026-1002")), Some(&10_020));
    assert_valid(&balances);
}

#[test]
fn ascending_removals_preserve_tree_invariants() {
    remove_accounts_and_validate(1_001_u64..=1_064);
}

#[test]
fn descending_removals_preserve_tree_invariants() {
    remove_accounts_and_validate((1_001_u64..=1_064).rev());
}

#[test]
fn interleaved_removals_preserve_tree_invariants() {
    let account_ids = (0_u64..32).flat_map(|offset| [1_001 + offset, 1_064 - offset]);

    remove_accounts_and_validate(account_ids);
}

#[test]
fn even_capacity_removals_preserve_tree_invariants() {
    let mut balances = BTree::<String, u64, 4>::new();
    for account_id in 1_001_u64..=1_096 {
        assert_eq!(
            balances.insert(account(account_id), account_id * 10),
            InsertOutcome::Inserted
        );
    }
    let removal_order = (0_u64..48).flat_map(|offset| [1_001 + offset, 1_096 - offset]);

    for account_id in removal_order {
        assert_eq!(
            balances.remove(&account(account_id)),
            RemoveOutcome::Removed {
                value: account_id * 10
            }
        );
        assert_valid(&balances);
    }

    assert!(balances.is_empty());
    assert!(balances.root_is_empty_leaf());
}

#[test]
fn mixed_mutations_match_standard_btree_map() {
    let mut balances = AccountBalances::new();
    let mut expected = StandardBTreeMap::new();

    for sequence in 0_u64..256 {
        let account_id = 1_001 + (sequence * 37) % 97;
        let account_key = account(account_id);
        let balance = account_id * 10 + sequence;

        match sequence % 3 {
            0 | 1 => {
                let actual = balances.insert(account_key.clone(), balance);
                let standard = expected.insert(account_key.clone(), balance);
                match standard {
                    Some(previous) => {
                        assert_eq!(actual, InsertOutcome::Replaced { previous });
                    }
                    None => assert_eq!(actual, InsertOutcome::Inserted),
                }
            }
            2 => {
                let actual = balances.remove(&account_key);
                let standard = expected.remove(account_key.as_str());
                match standard {
                    Some(value) => {
                        assert_eq!(actual, RemoveOutcome::Removed { value });
                    }
                    None => assert_eq!(actual, RemoveOutcome::Missing),
                }
            }
            _unreachable_remainder => unreachable!("remainder modulo three is at most two"),
        }

        assert_valid(&balances);
        assert_eq!(balances.len(), expected.len());
        assert_eq!(
            entries_of(&balances),
            expected
                .iter()
                .map(|(account_id, balance)| (account_id.clone(), *balance))
                .collect::<Vec<_>>()
        );
    }
}

#[test]
fn reverse_iteration_matches_standard_map_after_mutations() {
    let mut balances = AccountBalances::new();
    let mut expected = StandardBTreeMap::new();
    for sequence in 0_u64..200 {
        let account_id = 1_001 + (sequence * 53) % 89;
        if sequence % 4 == 3 {
            balances.remove(&account(account_id));
            expected.remove(&account(account_id));
        } else {
            balances.insert(account(account_id), sequence);
            expected.insert(account(account_id), sequence);
        }
    }
    assert_valid(&balances);
    assert_eq!(
        reversed_entries_of(&balances),
        expected
            .iter()
            .rev()
            .map(|(account_id, balance)| (account_id.clone(), *balance))
            .collect::<Vec<_>>()
    );
}
