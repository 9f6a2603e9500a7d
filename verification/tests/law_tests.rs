use btree::node::BranchNode;
use btree::node::Node;
use btree::validate::ValidationStats;
use btree::BTree;
use btree::InsertOutcome;
use btree::RemoveOutcome;

type Balances = BTree<u64, u64, 3>;

fn entries(tree: &Balances) -> Vec<(u64, u64)> {
    let mut iter = tree.iter();
    let mut collected = Vec::new();
    while let Some((key, value)) = iter.next() {
        collected.push((*key, *value));
    }
    collected
}

fn tree_of(keys: impl IntoIterator<Item = u64>) -> Balances {
    let mut tree = Balances::new();
    for key in keys {
        let _outcome = tree.insert(key, key * 10);
    }
    tree
}

#[test]
fn read_after_write_returns_written_value_and_keeps_others() {
    let mut tree = tree_of(1..=20);
    let before = entries(&tree);

    let outcome = tree.insert(7, 700);

    assert_eq!(outcome, InsertOutcome::Replaced { previous: 70 });
    assert_eq!(tree.get(&7), Some(&700));
    for (key, value) in before {
        if key != 7 {
            assert_eq!(tree.get(&key), Some(&value));
        }
    }
}

#[test]
fn read_after_remove_finds_nothing_and_keeps_others() {
    let mut tree = tree_of(1..=20);

    assert_eq!(tree.remove(&13), RemoveOutcome::Removed { value: 130 });

    assert_eq!(tree.get(&13), None);
    assert_eq!(tree.get(&12), Some(&120));
    assert_eq!(tree.get(&14), Some(&140));
}

#[test]
fn counts_follow_insert_replace_and_remove() {
    let mut tree = tree_of(1..=10);

    assert_eq!(tree.insert(11, 0), InsertOutcome::Inserted);
    assert_eq!(tree.len(), 11);
    assert_eq!(tree.insert(11, 1), InsertOutcome::Replaced { previous: 0 });
    assert_eq!(tree.len(), 11);
    assert_eq!(tree.remove(&11), RemoveOutcome::Removed { value: 1 });
    assert_eq!(tree.len(), 10);
    assert_eq!(tree.remove(&11), RemoveOutcome::Missing);
    assert_eq!(tree.len(), 10);
}

#[test]
fn remove_undoes_insert_of_new_key() {
    let mut tree = tree_of((1..=30).map(|key| key * 2));
    let before = entries(&tree);

    assert_eq!(tree.insert(31, 5), InsertOutcome::Inserted);
    assert_eq!(tree.remove(&31), RemoveOutcome::Removed { value: 5 });

    assert_eq!(entries(&tree), before);
    assert_eq!(tree.validate(), Some(tree.len()));
}

#[test]
fn insert_undoes_remove_with_same_value() {
    let mut tree = tree_of(1..=30);
    let before = entries(&tree);

    assert_eq!(tree.remove(&17), RemoveOutcome::Removed { value: 170 });
    assert_eq!(tree.insert(17, 170), InsertOutcome::Inserted);

    assert_eq!(entries(&tree), before);
}

#[test]
fn rewriting_own_value_changes_nothing() {
    let mut tree = tree_of(1..=9);
    let before = entries(&tree);

    assert_eq!(tree.insert(4, 40), InsertOutcome::Replaced { previous: 40 });

    assert_eq!(entries(&tree), before);
}

#[test]
fn last_value_wins_when_extending() {
    let mut tree = tree_of([1, 2, 3]);

    tree.extend(vec![(2, 1), (9, 5), (2, 2), (9, 6), (2, 3)]);

    assert_eq!(entries(&tree), [(1, 10), (2, 3), (3, 30), (9, 6)]);
}

#[test]
fn iteration_visits_entries_in_strictly_increasing_key_order() {
    let tree = tree_of((0..200).map(|sequence| (sequence * 7919) % 1009));

    let keys: Vec<u64> = entries(&tree).into_iter().map(|(key, _value)| key).collect();

    assert_eq!(keys.len(), 200);
    assert!(keys.windows(2).all(|pair| pair[0] < pair[1]));
}

#[test]
fn empty_tree_is_one_empty_root_leaf_after_removing_everything() {
    let mut tree = tree_of(1..=40);
    for key in 1..=40 {
        let _outcome = tree.remove(&key);
    }

    assert!(tree.is_empty());
    assert!(tree.root_is_empty_leaf());
    assert_eq!(tree.height(), 0);
}

#[test]
fn get_key_value_returns_stored_pair() {
    let tree = tree_of(1..=12);

    assert_eq!(tree.get_key_value(&5), Some((&5, &50)));
    assert_eq!(tree.get_key_value(&13), None);
}

#[test]
fn keys_and_values_project_entries_in_order() {
    let tree = tree_of([5, 1, 4, 2, 3]);

    let mut keys = tree.keys();
    assert_eq!(keys.len(), 5);
    assert_eq!(keys.size_hint(), (5, Some(5)));
    assert_eq!(keys.next(), Some(&1));
    assert_eq!(keys.next_back(), Some(&5));
    assert_eq!(keys.next(), Some(&2));
    assert_eq!(keys.len(), 2);
    assert_eq!(keys.next_back(), Some(&4));
    assert_eq!(keys.next(), Some(&3));
    assert_eq!(keys.next(), None);
    assert_eq!(keys.next_back(), None);

    let mut values = tree.values();
    let mut collected = Vec::new();
    while let Some(value) = values.next() {
        collected.push(*value);
    }
    assert_eq!(collected, [10, 20, 30, 40, 50]);
    let mut backward = tree.values();
    assert_eq!(backward.next_back(), Some(&50));
    assert_eq!(backward.size_hint(), (4, Some(4)));
}

#[test]
fn retain_keeps_accepted_entries_with_updated_values() {
    let mut tree = tree_of(1..=20);
    let mut visited = Vec::new();

    tree.retain(|key, value| {
        visited.push(*key);
        *value += 1;
        key % 3 == 0
    });

    assert_eq!(visited, (1..=20).collect::<Vec<_>>());
    assert_eq!(
        entries(&tree),
        [(3, 31), (6, 61), (9, 91), (12, 121), (15, 151), (18, 181)]
    );
    assert_eq!(tree.validate(), Some(6));
}

#[test]
fn retain_rejecting_everything_leaves_empty_root() {
    let mut tree = tree_of(1..=50);

    tree.retain(|_key, _value| false);

    assert!(tree.is_empty());
    assert!(tree.root_is_empty_leaf());
}

#[test]
fn decided_entries_keep_flagged_pairs() {
    let tree = Balances::from_decided_entries(vec![(1, 10, true), (2, 20, false), (3, 30, true)]);

    assert_eq!(entries(&tree), [(1, 10), (3, 30)]);
}

#[test]
fn from_root_rejects_unsorted_leaf() {
    let node = Node::<u64, u64, 3>::from_sorted_entries(vec![(3, 30), (1, 10)]);

    assert!(Balances::from_root(node).is_none());
}

#[test]
fn from_root_rejects_overfull_leaf() {
    let node = Node::<u64, u64, 3>::from_sorted_entries(vec![(1, 10), (2, 20), (3, 30), (4, 40)]);

    assert!(Balances::from_root(node).is_none());
}

#[test]
fn from_root_rejects_branch_with_one_child() {
    let node = Node::Branch(BranchNode {
        leftmost: Box::new(Node::from_sorted_entries(vec![(1, 10), (2, 20)])),
        rightward: Vec::new(),
    });

    assert!(Balances::from_root(node).is_none());
}

#[test]
fn from_root_rejects_separator_that_is_not_child_minimum() {
    let node = Node::from_sorted_branch(
        Node::from_sorted_entries(vec![(1, 10), (2, 20)]),
        (4, Node::from_sorted_entries(vec![(5, 50), (6, 60)])),
        Vec::new(),
    );

    assert!(Balances::from_root(node).is_none());
}

#[test]
fn from_root_rejects_overlapping_children() {
    let node = Node::from_sorted_branch(
        Node::from_sorted_entries(vec![(1, 10), (7, 70)]),
        (5, Node::from_sorted_entries(vec![(5, 50), (6, 60)])),
        Vec::new(),
    );

    assert!(Balances::from_root(node).is_none());
}

#[test]
fn from_root_rejects_underfull_child() {
    let node = Node::from_sorted_branch(
        Node::from_sorted_entries(vec![(1, 10)]),
        (5, Node::from_sorted_entries(vec![(5, 50), (6, 60)])),
        Vec::new(),
    );

    assert!(Balances::from_root(node).is_none());
}

#[test]
fn from_root_accepts_valid_branch_and_counts_entries() {
    let node = Node::from_sorted_branch(
        Node::from_sorted_entries(vec![(1, 10), (2, 20)]),
        (5, Node::from_sorted_entries(vec![(5, 50), (6, 60)])),
        vec![(8, Node::from_sorted_entries(vec![(8, 80), (9, 90), (10, 100)]))],
    );

    let tree = Balances::from_root(node).unwrap();

    assert_eq!(tree.len(), 7);
    assert_eq!(tree.height(), 1);
    assert_eq!(tree.get(&9), Some(&90));
}

#[test]
fn string_keys_order_by_bytes() {
    let mut tree = BTree::<String, u64, 3>::new();
    for word in ["pear", "apple", "app", "banana", "applesauce", "b"] {
        let _outcome = tree.insert(String::from(word), word.len() as u64);
    }

    let mut iter = tree.iter();
    let mut words = Vec::new();
    while let Some((word, _length)) = iter.next() {
        words.push(word.clone());
    }

    assert_eq!(words, ["app", "apple", "applesauce", "b", "banana", "pear"]);
}

#[test]
fn allocated_entry_capacity_covers_stored_entries() {
    let tree = tree_of(1..=40);

    assert!(tree.allocated_entry_capacity() >= tree.len());
    assert_eq!(Balances::new().allocated_entry_capacity(), 0);
}

#[test]
fn contains_key_agrees_with_get() {
    let tree = tree_of([2, 4, 6, 8]);

    for key in 0..10 {
        assert_eq!(tree.contains_key(&key), tree.get(&key).is_some());
    }
}

#[test]
fn validation_stats_merge_siblings_of_equal_height() {
    let merged = ValidationStats::leaf(3).merge_sibling(ValidationStats::leaf(4));

    assert_eq!(
        merged,
        Some(ValidationStats {
            height: 0,
            entry_count: 7
        })
    );
    assert_eq!(
        ValidationStats::leaf(2).into_parent(),
        ValidationStats {
            height: 1,
            entry_count: 2
        }
    );
    assert_eq!(
        ValidationStats::leaf(2).merge_sibling(ValidationStats::leaf(2).into_parent()),
        None
    );
    assert_eq!(
        ValidationStats::leaf(usize::MAX).merge_sibling(ValidationStats::leaf(1)),
        None
    );
}

#[test]
fn root_check_rejects_branch_with_one_child() {
    let node: Node<u64, u64, 3> = Node::Branch(BranchNode {
        leftmost: Box::new(Node::from_sorted_entries(vec![(1, 10), (2, 20)])),
        rightward: Vec::new(),
    });

    assert_eq!(
        node.validate(btree::validate::ValidationPosition::Root),
        None
    );
    assert_eq!(node.validate_root(), None);
}

#[test]
fn retain_hands_each_old_value_to_the_predicate() {
    let mut tree = tree_of(1..=6);
    let mut seen = Vec::new();

    tree.retain(|key, value| {
        seen.push((*key, *value));
        *value = *key * 100;
        *key <= 2
    });

    assert_eq!(seen, [(1, 10), (2, 20), (3, 30), (4, 40), (5, 50), (6, 60)]);
    assert_eq!(entries(&tree), [(1, 100), (2, 200)]);
}

#[test]
fn saturating_total_adds_capacities_and_stops_at_the_limit() {
    assert_eq!(btree::node::saturating_total(&vec![4, 5, 6]), 15);
    assert_eq!(btree::node::saturating_total(&Vec::new()), 0);
    assert_eq!(btree::node::saturating_total(&vec![usize::MAX - 1, 1, 1]), usize::MAX);
}

#[test]
fn removing_a_missing_key_keeps_the_tree() {
    let mut tree = tree_of(1..=30);
    let before = entries(&tree);
    let height = tree.height();

    assert_eq!(tree.remove(&99), RemoveOutcome::Missing);

    assert_eq!(entries(&tree), before);
    assert_eq!(tree.height(), height);
}
