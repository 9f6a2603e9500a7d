use std::collections::BTreeMap as StandardBTreeMap;

use btree::BTree;
use btree::Bound;
use btree::InsertOutcome;
use btree::Range;
use btree::RangeError;

type AccountBalances = BTree<String, u64, 3>;

fn key(text: &str) -> String {
    String::from(text)
}

fn account_balances(account_ids: impl IntoIterator<Item = u64>) -> AccountBalances {
    let mut balances = AccountBalances::new();
    for account_id in account_ids {
        assert_eq!(
            balances.insert(format!("account-2026-{account_id}"), account_id * 10),
            InsertOutcome::Inserted
        );
    }
    balances
}

fn account_ids(mut entries: Range<'_, String, u64, 3>) -> Vec<String> {
    let mut ids = Vec::new();
    while let Some((account_id, _balance)) = entries.next() {
        ids.push(account_id.clone());
    }
    ids
}

fn forward_ids(balances: &AccountBalances) -> Vec<String> {
    let mut entries = balances.iter();
    let mut ids = Vec::new();
    while let Some((account_id, _balance)) = entries.next() {
        ids.push(account_id.clone());
    }
    ids
}

fn backward_ids(balances: &AccountBalances) -> Vec<String> {
    let mut entries = balances.iter();
    let mut ids = Vec::new();
    while let Some((account_id, _balance)) = entries.next_back() {
        ids.push(account_id.clone());
    }
    ids
}

fn strictly_ascending(ids: &[String]) -> bool {
    ids.windows(2).all(|pair| pair[0] < pair[1])
}

fn strictly_descending(ids: &[String]) -> bool {
    ids.windows(2).all(|pair| pair[0] > pair[1])
}

fn included(text: &str) -> Bound<String> {
    Bound::Included(key(text))
}

fn excluded(text: &str) -> Bound<String> {
    Bound::Excluded(key(text))
}

fn names(texts: &[&str]) -> Vec<String> {
    texts.iter().map(|text| key(text)).collect()
}

#[test]
fn iter_empty_tree_returns_none() {
    let balances = AccountBalances::new();

    let mut entries = balances.iter();

    assert_eq!(entries.next(), None);
    assert_eq!(entries.next_back(), None);
}

#[test]
fn iter_singleton_tree_yields_its_entry() {
    let balances = account_balances([1_001]);

    let entries = forward_ids(&balances);

    assert_eq!(entries, ["account-2026-1001"]);
}

#[test]
fn iter_advances_within_leaf() {
    let balances = account_balances([2_001, 1_001, 3_001]);

    let entries = forward_ids(&balances);

    assert_eq!(
        entries,
        [
            "account-2026-1001",
            "account-2026-2001",
            "account-2026-3001"
        ]
    );
}

#[test]
fn iter_crosses_leaf_boundary_in_order() {
    let balances = account_balances(1_001..=1_012);

    let entries = forward_ids(&balances);

    assert_eq!(entries.len(), 12);
    assert!(strictly_ascending(&entries));
    assert_eq!(entries.first().map(String::as_str), Some("account-2026-1001"));
    assert_eq!(entries.last().map(String::as_str), Some("account-2026-1012"));
}

#[test]
fn iter_ascends_across_exhausted_branch() {
    let balances = account_balances(1_001..=1_064);

    let entries = forward_ids(&balances);

    assert_eq!(entries.len(), 64);
    assert!(strictly_ascending(&entries));
    assert_eq!(entries.last().map(String::as_str), Some("account-2026-1064"));
}

#[test]
fn iter_back_crosses_leaf_and_branch_boundaries_in_order() {
    let balances = account_balances(1_001..=1_064);

    let entries = backward_ids(&balances);

    assert_eq!(entries.len(), 64);
    assert!(strictly_descending(&entries));
    assert_eq!(entries.first().map(String::as_str), Some("account-2026-1064"));
    assert_eq!(entries.last().map(String::as_str), Some("account-2026-1001"));
}

#[test]
fn iter_reports_exact_size_hint() {
    let balances = account_balances(1_001..=1_012);
    let mut entries = balances.iter();

    let initial = entries.size_hint();
    let first = entries.next();
    let after_front = entries.size_hint();
    let last = entries.next_back();

    assert!(first.is_some());
    assert!(last.is_some());
    assert_eq!(initial, (12, Some(12)));
    assert_eq!(after_front, (11, Some(11)));
    assert_eq!(entries.size_hint(), (10, Some(10)));
    assert_eq!(entries.len(), 10);
}

#[test]
fn iter_front_and_back_do_not_duplicate_entry() {
    let balances = account_balances(1_001..=1_005);
    let mut entries = balances.iter();

    let visited = [
        entries.next().map(|(account_id, _value)| account_id.as_str()),
        entries.next_back().map(|(account_id, _value)| account_id.as_str()),
        entries.next().map(|(account_id, _value)| account_id.as_str()),
        entries.next_back().map(|(account_id, _value)| account_id.as_str()),
        entries.next().map(|(account_id, _value)| account_id.as_str()),
    ];

    assert_eq!(
        visited,
        [
            Some("account-2026-1001"),
            Some("account-2026-1005"),
            Some("account-2026-1002"),
            Some("account-2026-1004"),
            Some("account-2026-1003"),
        ]
    );
    assert_eq!(entries.next(), None);
    assert_eq!(entries.next_back(), None);
}

#[test]
fn iter_after_last_entry_is_fused() {
    let balances = account_balances([1_001]);
    let mut entries = balances.iter();

    assert!(entries.next().is_some());
    assert_eq!(entries.next(), None);
    assert_eq!(entries.next(), None);
    assert_eq!(entries.next_back(), None);
}

#[test]
fn range_with_ordered_bounds_is_valid() {
    let balances = account_balances(1_001..=1_008);

    let result = balances.range((included("account-2026-1003"), included("account-2026-1006")));

    assert!(result.is_ok());
}

#[test]
fn range_with_reversed_bounds_returns_error() {
    let balances = account_balances(1_001..=1_008);

    let result = balances.range((included("account-2026-1006"), included("account-2026-1003")));

    assert!(matches!(result, Err(RangeError::StartAfterEnd)));
}

#[test]
fn range_with_equal_included_bounds_yields_match() {
    let balances = account_balances(1_001..=1_008);

    let entries = balances
        .range((included("account-2026-1004"), included("account-2026-1004")))
        .map(account_ids);

    assert_eq!(entries, Ok(names(&["account-2026-1004"])));
}

#[test]
fn range_with_equal_excluded_bound_returns_error() {
    let balances = account_balances(1_001..=1_008);

    let both_excluded =
        balances.range((excluded("account-2026-1004"), excluded("account-2026-1004")));
    let start_excluded =
        balances.range((excluded("account-2026-1004"), included("account-2026-1004")));
    let end_excluded =
        balances.range((included("account-2026-1004"), excluded("account-2026-1004")));

    assert!(matches!(
        both_excluded,
        Err(RangeError::EmptyExcludedBounds)
    ));
    assert!(matches!(
        start_excluded,
        Err(RangeError::EmptyExcludedBounds)
    ));
    assert!(matches!(end_excluded, Err(RangeError::EmptyExcludedBounds)));
}

#[test]
fn range_with_unbounded_start_begins_at_first_key() {
    let balances = account_balances(1_001..=1_008);

    let entries = balances
        .range((Bound::Unbounded, excluded("account-2026-1004")))
        .map(account_ids);

    assert_eq!(
        entries,
        Ok(names(&[
            "account-2026-1001",
            "account-2026-1002",
            "account-2026-1003"
        ]))
    );
}

#[test]
fn range_excluded_end_at_leaf_minimum_keeps_preceding_leaf() {
    let balances = account_balances(1_001..=1_008);

    let entries = balances
        .range((Bound::Unbounded, excluded("account-2026-1005")))
        .map(account_ids);

    assert_eq!(
        entries,
        Ok(names(&[
            "account-2026-1001",
            "account-2026-1002",
            "account-2026-1003",
            "account-2026-1004"
        ]))
    );
}

#[test]
fn range_with_unbounded_end_finishes_at_last_key() {
    let balances = account_balances(1_001..=1_008);

    let entries = balances
        .range((excluded("account-2026-1005"), Bound::Unbounded))
        .map(account_ids);

    assert_eq!(
        entries,
        Ok(names(&[
            "account-2026-1006",
            "account-2026-1007",
            "account-2026-1008"
        ]))
    );
}

#[test]
fn range_endpoints_honor_inclusion_and_exclusion() {
    let balances = account_balances(1_001..=1_008);

    let included_entries = balances
        .range((included("account-2026-1003"), included("account-2026-1006")))
        .map(account_ids);
    let excluded_entries = balances
        .range((excluded("account-2026-1003"), excluded("account-2026-1006")))
        .map(account_ids);

    assert_eq!(
        included_entries,
        Ok(names(&[
            "account-2026-1003",
            "account-2026-1004",
            "account-2026-1005",
            "account-2026-1006"
        ]))
    );
    assert_eq!(
        excluded_entries,
        Ok(names(&["account-2026-1004", "account-2026-1005"]))
    );
}

#[test]
fn range_without_matching_accounts_is_empty() {
    let balances = account_balances([1_001, 2_001, 3_001]);

    let entries = balances
        .range((included("account-2026-2100"), included("account-2026-2900")))
        .map(account_ids);

    assert_eq!(entries, Ok(Vec::new()));
}

#[test]
fn range_with_str_bounds_filters_string_keys() {
    let balances = account_balances(1_001..=1_012);

    let entries = balances
        .range((included("account-2026-1009"), excluded("account-2026-1012")))
        .map(account_ids);

    assert_eq!(
        entries,
        Ok(names(&[
            "account-2026-1009",
            "account-2026-1010",
            "account-2026-1011"
        ]))
    );
}

#[test]
fn range_front_and_back_stop_when_crossed() {
    let balances = account_balances(1_001..=1_008);
    let mut entries = balances
        .range((included("account-2026-1003"), included("account-2026-1006")))
        .unwrap_or_else(|_| panic!("ordered bounds are valid"));

    let visited = [
        entries.next().map(|(account_id, _value)| account_id.as_str()),
        entries.next_back().map(|(account_id, _value)| account_id.as_str()),
        entries.next_back().map(|(account_id, _value)| account_id.as_str()),
        entries.next().map(|(account_id, _value)| account_id.as_str()),
    ];

    assert_eq!(
        visited,
        [
            Some("account-2026-1003"),
            Some("account-2026-1006"),
            Some("account-2026-1005"),
            Some("account-2026-1004"),
        ]
    );
    assert_eq!(entries.next(), None);
    assert_eq!(entries.next_back(), None);
    assert_eq!(entries.next_back(), None);
    assert_eq!(entries.next(), None);
}

fn admits_start(bound: &Bound<u64>, account_id: u64) -> bool {
    match bound {
        Bound::Unbounded => true,
        Bound::Included(start) => account_id >= *start,
        Bound::Excluded(start) => account_id > *start,
    }
}

fn admits_end(bound: &Bound<u64>, account_id: u64) -> bool {
    match bound {
        Bound::Unbounded => true,
        Bound::Included(end) => account_id <= *end,
        Bound::Excluded(end) => account_id < *end,
    }
}

fn expected_range_error(start: &Bound<u64>, end: &Bound<u64>) -> Option<RangeError> {
    match (start, end) {
        (Bound::Included(start), Bound::Included(end)) => {
            if start > end {
                Some(RangeError::StartAfterEnd)
            } else {
                None
            }
        }
        (Bound::Included(start) | Bound::Excluded(start), Bound::Included(end) | Bound::Excluded(end)) => {
            if start > end {
                Some(RangeError::StartAfterEnd)
            } else if start == end {
                Some(RangeError::EmptyExcludedBounds)
            } else {
                None
            }
        }
        _ => None,
    }
}

fn assert_ranges_match_standard<const CAPACITY: usize>(
    entries: &[(u64, u64)],
    start: Bound<u64>,
    end: Bound<u64>,
) {
    let mut actual = BTree::<u64, u64, CAPACITY>::new();
    let mut standard = StandardBTreeMap::new();
    for (account_id, balance) in entries {
        let _outcome = actual.insert(*account_id, *balance);
        standard.insert(*account_id, *balance);
    }

    match (actual.range((start, end)), expected_range_error(&start, &end)) {
        (Err(actual_error), Some(expected_error)) => assert_eq!(actual_error, expected_error),
        (Ok(mut range), None) => {
            let expected_entries: Vec<(u64, u64)> = standard
                .iter()
                .filter(|(account_id, _balance)| {
                    admits_start(&start, **account_id) && admits_end(&end, **account_id)
                })
                .map(|(account_id, balance)| (*account_id, *balance))
                .collect();
            let mut actual_entries = Vec::new();
            while let Some((account_id, balance)) = range.next() {
                actual_entries.push((*account_id, *balance));
            }
            assert_eq!(actual_entries, expected_entries);

            let mut reverse_range = match actual.range((start, end)) {
                Ok(range) => range,
                Err(_) => panic!("a validated range failed when reopened for reverse traversal"),
            };
            let mut actual_reverse = Vec::new();
            while let Some((account_id, balance)) = reverse_range.next_back() {
                actual_reverse.push((*account_id, *balance));
            }
            let expected_reverse: Vec<(u64, u64)> = expected_entries.into_iter().rev().collect();
            assert_eq!(actual_reverse, expected_reverse);
        }
        (Err(actual_error), None) => panic!("valid mathematical bounds returned {actual_error:?}"),
        (Ok(_range), Some(expected_error)) => {
            panic!("invalid mathematical bounds did not return {expected_error:?}")
        }
    }
}

fn sample_bounds() -> Vec<Bound<u64>> {
    let mut bounds = vec![Bound::Unbounded];
    for account_id in [1_000_u64, 1_001, 1_010, 1_033, 1_034, 1_060, 1_095, 1_096, 1_200] {
        bounds.push(Bound::Included(account_id));
        bounds.push(Bound::Excluded(account_id));
    }
    bounds
}

#[test]
fn sampled_ranges_match_mathematical_model_at_several_capacities() {
    let entries: Vec<(u64, u64)> = (0_u64..64)
        .map(|sequence| (1_001 + (sequence * 29) % 96, sequence * 100))
        .collect();
    for start in sample_bounds() {
        for end in sample_bounds() {
            assert_ranges_match_standard::<3>(&entries, start, end);
            assert_ranges_match_standard::<4>(&entries, start, end);
            assert_ranges_match_standard::<32>(&entries, start, end);
        }
    }
}

#[test]
fn range_error_messages_describe_the_bounds() {
    assert_eq!(
        RangeError::StartAfterEnd.message(),
        "range start is after range end"
    );
    assert_eq!(
        RangeError::EmptyExcludedBounds.message(),
        "equal range bounds must both be included"
    );
}

#[test]
fn empty_tree_range_yields_nothing_from_either_end() {
    let balances = AccountBalances::new();
    let mut entries = balances
        .range((Bound::Unbounded, Bound::Unbounded))
        .unwrap_or_else(|_| panic!("unbounded ranges are valid"));

    assert_eq!(entries.next(), None);
    assert_eq!(entries.next_back(), None);
}

#[test]
fn unbounded_range_yields_every_entry() {
    let balances = account_balances(1_001..=1_020);

    let entries = balances.range((Bound::Unbounded, Bound::Unbounded)).map(account_ids);

    assert_eq!(entries, Ok(forward_ids(&balances)));
}

#[test]
fn equal_included_bounds_on_missing_key_yield_nothing() {
    let balances = account_balances([1_001, 1_003, 1_005]);

    let entries = balances
        .range((included("account-2026-1004"), included("account-2026-1004")))
        .map(account_ids);

    assert_eq!(entries, Ok(Vec::new()));
}
