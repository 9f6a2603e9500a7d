use btree::node::BranchNode;
use btree::node::ChildIndex;
use btree::node::InsertResult;
use btree::node::LeafNode;
use btree::node::MinimumChange;
use btree::node::Node;
use btree::node::OccupancyChange;
use btree::node::RemoveResult;
use btree::node::SearchSlot;

type AccountNode = Node<u64, u64, 3>;

fn account_leaf<const CAPACITY: usize>(account_ids: &[u64]) -> LeafNode<u64, u64, CAPACITY> {
    LeafNode::from_sorted_entries(
        account_ids
            .iter()
            .map(|account_id| (*account_id, account_id * 10))
            .collect(),
    )
}

fn account_branch() -> BranchNode<u64, u64, 3> {
    BranchNode::from_sorted_parts(
        Node::from_leaf(account_leaf(&[1_001, 1_501])),
        (2_001, Node::from_leaf(account_leaf(&[2_001, 2_501]))),
        vec![(3_001, Node::from_leaf(account_leaf(&[3_001, 3_501])))],
    )
}

fn account_branch_node(child_accounts: &[[u64; 2]]) -> Node<u64, u64, 3> {
    let leftmost = child_accounts[0];
    let first_right = child_accounts[1];
    Node::from_sorted_branch(
        Node::from_leaf(account_leaf(&leftmost)),
        (first_right[0], Node::from_leaf(account_leaf(&first_right))),
        child_accounts[2..]
            .iter()
            .map(|accounts| (accounts[0], Node::from_leaf(account_leaf(accounts))))
            .collect(),
    )
}

fn underfull_account_branch(accounts: [u64; 2]) -> Node<u64, u64, 3> {
    Node::Branch(BranchNode {
        leftmost: Box::new(Node::from_leaf(account_leaf(&accounts))),
        rightward: Vec::new(),
    })
}

fn account_ids<const CAPACITY: usize>(leaf: &LeafNode<u64, u64, CAPACITY>) -> Vec<u64> {
    leaf.entries.iter().map(|entry| entry.key).collect()
}

fn account_entries<const CAPACITY: usize>(leaf: &LeafNode<u64, u64, CAPACITY>) -> Vec<(u64, u64)> {
    leaf.entries
        .iter()
        .map(|entry| (entry.key, entry.value))
        .collect()
}

#[test]
fn search_existing_account_id_returns_occupied_slot() {
    let leaf = account_leaf::<4>(&[1_001, 2_001, 3_001]);

    assert_eq!(leaf.search(&2_001), SearchSlot::occupied(1));
}

#[test]
fn search_first_account_id_returns_first_occupied_slot() {
    let leaf = account_leaf::<4>(&[1_001, 2_001, 3_001]);

    assert_eq!(leaf.search(&1_001), SearchSlot::occupied(0));
}

#[test]
fn search_last_account_id_returns_last_occupied_slot() {
    let leaf = account_leaf::<4>(&[1_001, 2_001, 3_001]);

    assert_eq!(leaf.search(&3_001), SearchSlot::occupied(2));
}

#[test]
fn search_smaller_account_id_returns_first_vacancy() {
    let leaf = account_leaf::<4>(&[1_001, 2_001, 3_001]);

    assert_eq!(leaf.search(&901), SearchSlot::vacant(0));
}

#[test]
fn search_intermediate_account_id_returns_middle_vacancy() {
    let leaf = account_leaf::<4>(&[1_001, 2_001, 3_001]);

    assert_eq!(leaf.search(&2_501), SearchSlot::vacant(2));
}

#[test]
fn search_larger_account_id_returns_last_vacancy() {
    let leaf = account_leaf::<4>(&[1_001, 2_001, 3_001]);

    assert_eq!(leaf.search(&4_001), SearchSlot::vacant(3));
}

#[test]
fn child_for_key_below_first_separator_selects_leftmost() {
    let branch = account_branch();

    assert_eq!(
        branch.child_for_key(&1_750).first_key_value(),
        Some((&1_001, &10_010))
    );
}

#[test]
fn child_for_key_equal_to_separator_selects_right_child() {
    let branch = account_branch();

    assert_eq!(
        branch.child_for_key(&2_001).first_key_value(),
        Some((&2_001, &20_010))
    );
}

#[test]
fn child_for_key_between_separators_selects_enclosing_child() {
    let branch = account_branch();

    assert_eq!(
        branch.child_for_key(&2_750).first_key_value(),
        Some((&2_001, &20_010))
    );
}

#[test]
fn child_for_key_above_last_separator_selects_rightmost() {
    let branch = account_branch();

    assert_eq!(
        branch.child_for_key(&3_750).first_key_value(),
        Some((&3_001, &30_010))
    );
}

#[test]
fn child_for_key_mut_below_first_separator_selects_leftmost() {
    let mut branch = account_branch();

    let child = branch.child_for_key_mut(&1_750);

    assert_eq!(child.first_key_value(), Some((&1_001, &10_010)));
}

#[test]
fn child_for_key_mut_between_separators_selects_first_right() {
    let mut branch = account_branch();

    let child = branch.child_for_key_mut(&2_750);

    assert_eq!(child.first_key_value(), Some((&2_001, &20_010)));
}

#[test]
fn child_for_key_mut_above_last_separator_selects_rightmost() {
    let mut branch = account_branch();

    let child = branch.child_for_key_mut(&3_750);

    assert_eq!(child.first_key_value(), Some((&3_001, &30_010)));
}

#[test]
fn branch_node_reports_non_leaf_shape_and_allocated_entries() {
    let node = Node::from_branch(account_branch());

    assert!(!node.is_empty_leaf());
    assert!(node.allocated_entry_capacity() > 0);
}

#[test]
fn insert_into_empty_leaf_adds_account_balance() {
    let mut leaf = account_leaf::<3>(&[]);

    let result = leaf.insert(1_001, 12_500);

    assert_eq!(result, InsertResult::Inserted);
    assert_eq!(account_ids(&leaf), [1_001]);
    assert_eq!(leaf.get(&1_001), Some(&12_500));
}

#[test]
fn insert_new_account_into_non_full_leaf_preserves_order() {
    let mut leaf = account_leaf::<5>(&[2_001, 4_001]);

    let before = leaf.insert(1_001, 12_500);
    let between = leaf.insert(3_001, 37_500);
    let after = leaf.insert(5_001, 62_500);

    assert_eq!(before, InsertResult::Inserted);
    assert_eq!(between, InsertResult::Inserted);
    assert_eq!(after, InsertResult::Inserted);
    assert_eq!(account_ids(&leaf), [1_001, 2_001, 3_001, 4_001, 5_001]);
}

#[test]
fn insert_existing_account_replaces_balance() {
    let mut leaf = account_leaf::<3>(&[1_001]);
    let capacity_before = leaf.allocated_entry_capacity();

    let result = leaf.insert(1_001, 15_000);

    assert_eq!(result, InsertResult::Replaced { previous: 10_010 });
    assert_eq!(leaf.entry_count(), 1);
    assert_eq!(leaf.allocated_entry_capacity(), capacity_before);
    assert_eq!(leaf.get(&1_001), Some(&15_000));
}

#[test]
fn insert_into_full_leaf_splits_at_valid_occupancy() {
    let mut leaf = account_leaf::<3>(&[1_001, 2_001, 3_001]);

    let result = leaf.insert(2_501, 31_250);

    assert_eq!(
        result,
        InsertResult::InsertedAndSplit {
            separator: 2_501,
            right: Box::new(Node::from_sorted_entries(vec![(2_501, 31_250), (3_001, 30_010)])),
        }
    );
    assert_eq!(account_ids(&leaf), [1_001, 2_001]);
}

#[test]
fn split_leaf_with_odd_capacity_balances_entries() {
    let mut leaf = account_leaf::<3>(&[1_001, 2_001, 3_001]);

    let result = leaf.insert(4_001, 50_000);

    assert_eq!(
        result,
        InsertResult::InsertedAndSplit {
            separator: 3_001,
            right: Box::new(Node::from_sorted_entries(vec![(3_001, 30_010), (4_001, 50_000)])),
        }
    );
    assert_eq!(leaf.entry_count(), 2);
}

#[test]
fn split_leaf_with_even_capacity_balances_entries() {
    let mut leaf = account_leaf::<4>(&[1_001, 2_001, 3_001, 4_001]);

    let result = leaf.insert(2_501, 31_250);

    assert_eq!(
        result,
        InsertResult::InsertedAndSplit {
            separator: 2_501,
            right: Box::new(Node::from_sorted_entries(vec![
                (2_501, 31_250),
                (3_001, 30_010),
                (4_001, 40_010),
            ])),
        }
    );
    assert_eq!(leaf.entry_count(), 2);
}

#[test]
fn split_leaf_promotes_right_minimum() {
    let mut leaf = account_leaf::<3>(&[1_001, 2_001, 3_001]);

    let result = leaf.insert(3_501, 43_750);

    assert_eq!(
        result,
        InsertResult::InsertedAndSplit {
            separator: 3_001,
            right: Box::new(Node::from_sorted_entries(vec![(3_001, 30_010), (3_501, 43_750)])),
        }
    );
}

#[test]
fn split_leaf_preserves_every_account_exactly_once() {
    let mut leaf = account_leaf::<4>(&[1_001, 2_001, 3_001, 4_001]);

    let result = leaf.insert(2_501, 31_250);

    let InsertResult::InsertedAndSplit { right, .. } = result else {
        panic!("full leaf insertion must split");
    };
    let Node::Leaf(right_leaf) = *right else {
        panic!("leaf insertion must produce a leaf sibling");
    };
    let all_entries = account_entries(&leaf)
        .into_iter()
        .chain(account_entries(&right_leaf))
        .collect::<Vec<_>>();
    assert_eq!(
        all_entries,
        [
            (1_001, 10_010),
            (2_001, 20_010),
            (2_501, 31_250),
            (3_001, 30_010),
            (4_001, 40_010),
        ]
    );
}

#[test]
fn split_leaf_reserves_one_overflow_slot_in_right_sibling() {
    let mut leaf = account_leaf::<3>(&[1_001, 2_001, 3_001]);

    let result = leaf.insert(4_001, 50_000);

    let InsertResult::InsertedAndSplit { right, .. } = result else {
        panic!("full leaf insertion must split");
    };
    let Node::Leaf(right_leaf) = *right else {
        panic!("leaf insertion must produce a leaf sibling");
    };
    assert!(leaf.allocated_entry_capacity() >= 4);
    assert!(right_leaf.allocated_entry_capacity() >= 4);
}

#[test]
fn first_leaf_insertion_reserves_one_overflow_slot() {
    let mut leaf = account_leaf::<3>(&[]);

    let result = leaf.insert(1_001, 12_500);

    assert_eq!(result, InsertResult::Inserted);
    assert!(leaf.allocated_entry_capacity() >= 4);
}

#[test]
fn stable_leaf_insertions_and_replacement_reuse_allocation() {
    let mut leaf = account_leaf::<3>(&[]);
    let first = leaf.insert(1_001, 12_500);
    let reserved_capacity = leaf.allocated_entry_capacity();

    let second = leaf.insert(2_001, 25_000);
    let replacement = leaf.insert(1_001, 15_000);

    assert_eq!(first, InsertResult::Inserted);
    assert_eq!(second, InsertResult::Inserted);
    assert_eq!(replacement, InsertResult::Replaced { previous: 12_500 });
    assert_eq!(leaf.allocated_entry_capacity(), reserved_capacity);
}

#[test]
fn branch_absorbs_child_replacement_without_growth() {
    let mut branch = account_branch();
    let entry_count_before = branch.entry_count();

    let result = branch.insert(2_001, 25_500);

    assert_eq!(result, InsertResult::Replaced { previous: 20_010 });
    assert_eq!(branch.entry_count(), entry_count_before);
    assert_eq!(branch.child_for_key(&2_001).get(&2_001), Some(&25_500));
}

#[test]
fn branch_absorbs_stable_child_insertion() {
    let mut branch = account_branch();

    let result = branch.insert(1_750, 21_875);

    assert_eq!(result, InsertResult::Inserted);
    assert_eq!(branch.entry_count(), 7);
    assert_eq!(branch.child_for_key(&1_750).get(&1_750), Some(&21_875));
}

#[test]
fn branch_absorbs_child_split_when_not_full() {
    let mut branch: BranchNode<u64, u64, 3> = BranchNode::from_sorted_parts(
        Node::from_leaf(account_leaf(&[1_001, 1_501, 1_751])),
        (2_001, Node::from_leaf(account_leaf(&[2_001, 2_501]))),
        vec![],
    );

    let result = branch.insert(1_601, 20_000);

    assert_eq!(result, InsertResult::Inserted);
    assert_eq!(
        branch,
        BranchNode::from_sorted_parts(
            Node::from_leaf(account_leaf(&[1_001, 1_501])),
            (
                1_601,
                Node::from_sorted_entries(vec![(1_601, 20_000), (1_751, 17_510)]),
            ),
            vec![(2_001, Node::from_leaf(account_leaf(&[2_001, 2_501])))],
        )
    );
}

#[test]
fn branch_absorbs_first_right_child_split_in_order() {
    let mut branch: BranchNode<u64, u64, 3> = BranchNode::from_sorted_parts(
        Node::from_leaf(account_leaf(&[1_001, 1_501])),
        (2_001, Node::from_leaf(account_leaf(&[2_001, 2_501, 2_751]))),
        vec![],
    );

    let result = branch.insert(2_601, 32_500);

    assert_eq!(result, InsertResult::Inserted);
    assert_eq!(
        branch,
        BranchNode::from_sorted_parts(
            Node::from_leaf(account_leaf(&[1_001, 1_501])),
            (2_001, Node::from_leaf(account_leaf(&[2_001, 2_501]))),
            vec![(
                2_601,
                Node::from_sorted_entries(vec![(2_601, 32_500), (2_751, 27_510)]),
            )],
        )
    );
}

#[test]
fn branch_absorbs_remaining_child_split_in_order() {
    let mut branch: BranchNode<u64, u64, 3> = BranchNode::from_sorted_parts(
        Node::from_leaf(account_leaf(&[1_001, 1_501])),
        (2_001, Node::from_leaf(account_leaf(&[2_001, 2_501]))),
        vec![(3_001, Node::from_leaf(account_leaf(&[3_001, 3_501, 3_751])))],
    );

    let result = branch.insert(3_601, 45_000);

    assert_eq!(result, InsertResult::Inserted);
    assert_eq!(
        branch,
        BranchNode::from_sorted_parts(
            Node::from_leaf(account_leaf(&[1_001, 1_501])),
            (2_001, Node::from_leaf(account_leaf(&[2_001, 2_501]))),
            vec![
                (3_001, Node::from_leaf(account_leaf(&[3_001, 3_501]))),
                (
                    3_601,
                    Node::from_sorted_entries(vec![(3_601, 45_000), (3_751, 37_510)]),
                ),
            ],
        )
    );
}

#[test]
fn branch_split_promotes_exactly_one_separator() {
    let mut branch: BranchNode<u64, u64, 3> = BranchNode::from_sorted_parts(
        Node::from_leaf(account_leaf(&[1_001, 1_101, 1_201])),
        (2_001, Node::from_leaf(account_leaf(&[2_001, 2_101]))),
        vec![
            (3_001, Node::from_leaf(account_leaf(&[3_001, 3_101]))),
            (4_001, Node::from_leaf(account_leaf(&[4_001, 4_101]))),
        ],
    );

    let result = branch.insert(1_151, 14_375);

    assert_eq!(
        branch,
        BranchNode::from_sorted_parts(
            Node::from_leaf(account_leaf(&[1_001, 1_101])),
            (
                1_151,
                Node::from_sorted_entries(vec![(1_151, 14_375), (1_201, 12_010)]),
            ),
            vec![(2_001, Node::from_leaf(account_leaf(&[2_001, 2_101])))],
        )
    );
    assert_eq!(
        result,
        InsertResult::InsertedAndSplit {
            separator: 3_001,
            right: Box::new(Node::from_sorted_branch(
                Node::from_leaf(account_leaf(&[3_001, 3_101])),
                (4_001, Node::from_leaf(account_leaf(&[4_001, 4_101]))),
                vec![],
            )),
        }
    );
}

#[test]
fn remove_missing_leaf_key_reports_missing() {
    let mut leaf = Node::from_leaf(account_leaf::<3>(&[1_001, 2_001, 3_001]));

    let result = leaf.remove(&2_501);

    assert_eq!(result, RemoveResult::Missing);
    assert_eq!(leaf, Node::from_leaf(account_leaf(&[1_001, 2_001, 3_001])));
}

#[test]
fn remove_from_occupied_leaf_remains_stable() {
    let mut leaf = Node::from_leaf(account_leaf::<3>(&[1_001, 2_001, 3_001]));

    let result = leaf.remove(&2_001);

    assert_eq!(
        result,
        RemoveResult::Removed {
            value: 20_010,
            occupancy: OccupancyChange::Stable {
                minimum: MinimumChange::Unchanged,
            },
        }
    );
    assert_eq!(leaf, Node::from_leaf(account_leaf(&[1_001, 3_001])));
}

#[test]
fn remove_leaf_minimum_reports_new_minimum() {
    let mut leaf = Node::from_leaf(account_leaf::<3>(&[1_001, 2_001, 3_001]));

    let result = leaf.remove(&1_001);

    assert_eq!(
        result,
        RemoveResult::Removed {
            value: 10_010,
            occupancy: OccupancyChange::Stable {
                minimum: MinimumChange::Changed(2_001),
            },
        }
    );
}

#[test]
fn remove_from_minimal_leaf_reports_underflow() {
    let mut leaf = Node::from_leaf(account_leaf::<3>(&[1_001, 2_001]));

    let result = leaf.remove(&1_001);

    assert_eq!(
        result,
        RemoveResult::Removed {
            value: 10_010,
            occupancy: OccupancyChange::Underflow {
                minimum: MinimumChange::Changed(2_001),
            },
        }
    );
}

#[test]
fn remove_last_leaf_key_reports_removed_minimum() {
    let mut leaf = Node::from_leaf(account_leaf::<3>(&[1_001]));

    let result = leaf.remove(&1_001);

    assert_eq!(
        result,
        RemoveResult::Removed {
            value: 10_010,
            occupancy: OccupancyChange::Underflow {
                minimum: MinimumChange::Removed,
            },
        }
    );
    assert!(leaf.is_empty_leaf());
}

#[test]
fn rebalance_leaf_borrows_from_left_sibling_first() {
    let mut root: AccountNode = Node::from_sorted_branch(
        Node::from_leaf(account_leaf(&[1_001, 1_501, 1_751])),
        (2_001, Node::from_leaf(account_leaf(&[2_001, 2_501]))),
        vec![(3_001, Node::from_leaf(account_leaf(&[3_001, 3_501, 3_751])))],
    );

    let result = root.remove(&2_001);

    assert_eq!(
        result,
        RemoveResult::Removed {
            value: 20_010,
            occupancy: OccupancyChange::Stable {
                minimum: MinimumChange::Unchanged,
            },
        }
    );
    assert_eq!(
        root,
        Node::from_sorted_branch(
            Node::from_leaf(account_leaf(&[1_001, 1_501])),
            (1_751, Node::from_leaf(account_leaf(&[1_751, 2_501]))),
            vec![(3_001, Node::from_leaf(account_leaf(&[3_001, 3_501, 3_751])))],
        )
    );
}

#[test]
fn rebalance_leaf_borrows_from_right_sibling() {
    let mut root: AccountNode = Node::from_sorted_branch(
        Node::from_leaf(account_leaf(&[1_001, 1_501])),
        (2_001, Node::from_leaf(account_leaf(&[2_001, 2_501, 2_751]))),
        vec![],
    );

    let result = root.remove(&1_001);

    assert_eq!(
        result,
        RemoveResult::Removed {
            value: 10_010,
            occupancy: OccupancyChange::Stable {
                minimum: MinimumChange::Changed(1_501),
            },
        }
    );
    assert_eq!(
        root,
        Node::from_sorted_branch(
            Node::from_leaf(account_leaf(&[1_501, 2_001])),
            (2_501, Node::from_leaf(account_leaf(&[2_501, 2_751]))),
            vec![],
        )
    );
}

#[test]
fn rebalance_leaf_merges_into_left_sibling() {
    let mut root: AccountNode = Node::from_sorted_branch(
        Node::from_leaf(account_leaf(&[1_001, 1_501])),
        (2_001, Node::from_leaf(account_leaf(&[2_001, 2_501]))),
        vec![(3_001, Node::from_leaf(account_leaf(&[3_001, 3_501])))],
    );

    let result = root.remove(&2_001);

    assert!(matches!(
        result,
        RemoveResult::Removed {
            occupancy: OccupancyChange::Stable { .. },
            ..
        }
    ));
    assert_eq!(
        root,
        Node::from_sorted_branch(
            Node::from_leaf(account_leaf(&[1_001, 1_501, 2_501])),
            (3_001, Node::from_leaf(account_leaf(&[3_001, 3_501]))),
            vec![],
        )
    );
}

#[test]
fn stable_parent_stops_underflow_propagation() {
    let mut parent = Node::from_branch(account_branch());

    let result = parent.remove(&2_001);

    assert_eq!(
        result,
        RemoveResult::Removed {
            value: 20_010,
            occupancy: OccupancyChange::Stable {
                minimum: MinimumChange::Unchanged,
            },
        }
    );
    assert_eq!(
        parent,
        Node::from_sorted_branch(
            Node::from_leaf(account_leaf(&[1_001, 1_501, 2_501])),
            (3_001, Node::from_leaf(account_leaf(&[3_001, 3_501]))),
            vec![],
        )
    );
}

#[test]
fn rebalance_leaf_merges_right_sibling() {
    let mut root: AccountNode = Node::from_sorted_branch(
        Node::from_leaf(account_leaf(&[1_001, 1_501])),
        (2_001, Node::from_leaf(account_leaf(&[2_001, 2_501]))),
        vec![(3_001, Node::from_leaf(account_leaf(&[3_001, 3_501])))],
    );

    let result = root.remove(&1_001);

    assert!(matches!(
        result,
        RemoveResult::Removed {
            occupancy: OccupancyChange::Stable { .. },
            ..
        }
    ));
    assert_eq!(
        root,
        Node::from_sorted_branch(
            Node::from_leaf(account_leaf(&[1_501, 2_001, 2_501])),
            (3_001, Node::from_leaf(account_leaf(&[3_001, 3_501]))),
            vec![],
        )
    );
}

#[test]
fn rebalance_branch_borrows_from_left_sibling() {
    let mut left = account_branch_node(&[[1_001, 1_501], [2_001, 2_501], [3_001, 3_501]]);
    let mut right = underfull_account_branch([4_001, 4_501]);
    let mut separator = 4_001;

    Node::borrow_from_left(&mut left, &mut separator, &mut right);

    assert_eq!(separator, 3_001);
    assert_eq!(left, account_branch_node(&[[1_001, 1_501], [2_001, 2_501]]));
    assert_eq!(right, account_branch_node(&[[3_001, 3_501], [4_001, 4_501]]));
}

#[test]
fn rebalance_branch_borrows_from_right_sibling() {
    let mut left = underfull_account_branch([1_001, 1_501]);
    let mut right = account_branch_node(&[[2_001, 2_501], [3_001, 3_501], [4_001, 4_501]]);
    let mut separator = 2_001;

    Node::borrow_from_right(&mut left, &mut separator, &mut right);

    assert_eq!(separator, 3_001);
    assert_eq!(left, account_branch_node(&[[1_001, 1_501], [2_001, 2_501]]));
    assert_eq!(right, account_branch_node(&[[3_001, 3_501], [4_001, 4_501]]));
}

#[test]
fn rebalance_branch_merge_joins_parent_separator() {
    let mut left = account_branch_node(&[[1_001, 1_501], [2_001, 2_501]]);
    let right = account_branch_node(&[[3_001, 3_501], [4_001, 4_501]]);

    left.merge_right(3_001, right);

    assert_eq!(
        left,
        account_branch_node(&[
            [1_001, 1_501],
            [2_001, 2_501],
            [3_001, 3_501],
            [4_001, 4_501],
        ])
    );
}

#[test]
fn rebalance_branch_merges_right_sibling() {
    let mut root = BranchNode::from_sorted_parts(
        underfull_account_branch([1_001, 1_501]),
        (
            2_001,
            account_branch_node(&[[2_001, 2_501], [3_001, 3_501]]),
        ),
        vec![],
    );

    root.absorb_child_removal(
        ChildIndex::new(0),
        OccupancyChange::Underflow {
            minimum: MinimumChange::Unchanged,
        },
    );
    let expected_merged_branch =
        account_branch_node(&[[1_001, 1_501], [2_001, 2_501], [3_001, 3_501]]);

    assert_eq!(root.leftmost.as_ref(), &expected_merged_branch);
    assert!(root.rightward.is_empty());
}

#[test]
fn rebalance_branch_applies_changed_minimum_before_borrowing() {
    let mut root = BranchNode::from_sorted_parts(
        account_branch_node(&[[1_001, 1_501], [2_001, 2_501], [3_001, 3_501]]),
        (4_001, underfull_account_branch([4_501, 4_751])),
        vec![],
    );

    root.absorb_child_removal(
        ChildIndex::new(1),
        OccupancyChange::Underflow {
            minimum: MinimumChange::Changed(4_501),
        },
    );

    assert_eq!(
        Node::from_branch(root),
        Node::from_sorted_branch(
            account_branch_node(&[[1_001, 1_501], [2_001, 2_501]]),
            (
                3_001,
                account_branch_node(&[[3_001, 3_501], [4_501, 4_751]]),
            ),
            vec![],
        )
    );
}
