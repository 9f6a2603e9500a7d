//! The ordered map: a root node and its entry count.
use vstd::prelude::*;

use crate::iter::bounded_run;
use crate::iter::bounds_error;
use crate::iter::Bound;
use crate::iter::Iter;
use crate::iter::Range;
use crate::iter::RangeError;
use crate::key::group_key_order;
use crate::key::OrderedKey;
use crate::model::entry_map;
use crate::model::lemma_entry_map_absent;
use crate::model::lemma_entry_map_inserted;
use crate::model::lemma_entry_map_removed;
use crate::model::lemma_entry_map_sorted;
use crate::model::lemma_entry_map_value_updated;
use crate::node::absent;
use crate::node::capacity_ok;
use crate::node::has_entry;
use crate::node::inserted_at;
use crate::node::key_index;
use crate::node::owned_pairs;
use crate::node::removed_at;
use crate::node::replaced_at;
use crate::node::sorted;
use crate::node::value_updated;
use crate::node::InsertResult;
use crate::node::Node;
use crate::node::RemoveResult;
use crate::projections::run_keys;
use crate::projections::run_values;
use crate::projections::Keys;
use crate::projections::Values;

verus! {

broadcast use group_key_order;

/// Public result of inserting a key-value pair.
#[derive(Debug, PartialEq, Eq)]
pub enum InsertOutcome<V> {
    /// A new key was inserted.
    Inserted,
    /// An existing key's value was replaced.
    Replaced {
        /// Value previously associated with the key.
        previous: V,
    },
}

/// Public result of removing a key-value pair.
#[derive(Debug, PartialEq, Eq)]
pub enum RemoveOutcome<V> {
    /// The key existed and its value was removed.
    Removed {
        /// Value previously associated with the key.
        value: V,
    },
    /// The key was not present.
    Missing,
}

/// Number of entries stored by a tree.
#[derive(Clone, Copy)]
struct EntryCount(usize);

impl EntryCount {
    fn empty() -> (count: Self)
        ensures
            count.0 == 0,
    {
        Self(0)
    }

    fn get(self) -> (count: usize)
        ensures
            count == self.0,
    {
        self.0
    }

    fn is_empty(self) -> (empty: bool)
        ensures
            empty == (self.0 == 0),
    {
        self.0 == 0
    }

    fn increment(&mut self)
        requires
            old(self).0 < usize::MAX,
        ensures
            final(self).0 == old(self).0 + 1,
    {
        self.0 = self.0 + 1;
    }

    fn decrement(&mut self)
        requires
            old(self).0 > 0,
        ensures
            final(self).0 == old(self).0 - 1,
    {
        self.0 = self.0 - 1;
    }
}

/// Root node, whose occupancy rules differ from non-root nodes.
struct Root<K, V, const CAPACITY: usize> {
    node: Node<K, V, CAPACITY>,
}

impl<K: OrderedKey, V, const CAPACITY: usize> Root<K, V, CAPACITY> {
    fn empty() -> (root: Self)
        ensures
            root.node.root_inv(),
            root.node.entries().len() == 0,
    {
        Self { node: Node::empty_leaf() }
    }

    fn first_key_value(&self) -> (pair: Option<(&K, &V)>)
        requires
            capacity_ok::<CAPACITY>(),
            self.node.inv(),
        ensures
            match pair {
                None => self.node.entries().len() == 0,
                Some((key, value)) => self.node.entries().len() > 0 && (key@, *value)
                    == self.node.entries()[0],
            },
    {
        self.node.first_key_value()
    }

    fn last_key_value(&self) -> (pair: Option<(&K, &V)>)
        requires
            capacity_ok::<CAPACITY>(),
            self.node.inv(),
        ensures
            match pair {
                None => self.node.entries().len() == 0,
                Some((key, value)) => self.node.entries().len() > 0 && (key@, *value)
                    == self.node.entries().last(),
            },
    {
        self.node.last_key_value()
    }

    fn get(&self, key: &K) -> (value: Option<&V>)
        requires
            capacity_ok::<CAPACITY>(),
            self.node.inv(),
        ensures
            match value {
                Some(value) => has_entry::<K, V>(self.node.entries(), key@, *value),
                None => absent::<K, V>(self.node.entries(), key@),
            },
    {
        self.node.get(key)
    }

    /// Replaces the root with a branch over the split halves.
    fn grow(&mut self, separator: K, right: Box<Node<K, V, CAPACITY>>)
        requires
            capacity_ok::<CAPACITY>(),
            old(self).node.inv(),
            !old(self).node.underfull(),
            right.inv(),
            !right.underfull(),
            right.height() == old(self).node.height(),
            right.entries().len() > 0,
            separator@ == right.entries()[0].0,
            sorted::<K, V>(old(self).node.entries() + right.entries()),
        ensures
            final(self).node.root_inv(),
            final(self).node.entries() == old(self).node.entries() + right.entries(),
            final(self).node.height() == old(self).node.height() + 1,
    {
        let mut left = Node::empty_leaf();
        std::mem::swap(&mut self.node, &mut left);
        let ghost left_node = left;
        let ghost right_node = *right;
        let ghost edge = crate::node::BranchEdge { lower_bound: separator, child: right };
        self.node = Node::from_root_split(left, separator, right);
        proof {
            crate::node::lemma_edges_entries_single(edge);
            assert(Node::<K, V, CAPACITY>::edge_ok(edge, left_node.height()));
        }
    }
}

impl<K: OrderedKey, V, const CAPACITY: usize> Root<K, V, CAPACITY> {
    fn get_mut(&mut self, key: &K) -> (value: Option<&mut V>)
        requires
            capacity_ok::<CAPACITY>(),
            old(self).node.root_inv(),
        ensures
            final(self).node.root_inv(),
            match value {
                Some(value) => {
                    let i = key_index::<K, V>(old(self).node.entries(), key@);
                    &&& 0 <= i < old(self).node.entries().len()
                    &&& old(self).node.entries()[i] == (key@, *value)
                    &&& final(self).node.entries() == value_updated::<K, V>(
                        old(self).node.entries(),
                        i,
                        *final(value),
                    )
                },
                None => absent::<K, V>(old(self).node.entries(), key@) && final(self).node.entries()
                    == old(self).node.entries(),
            },
    {
        self.node.get_mut(key)
    }

    fn insert(&mut self, key: K, value: V) -> (result: InsertResult<K, V, CAPACITY>)
        requires
            capacity_ok::<CAPACITY>(),
            old(self).node.inv(),
        ensures
            Node::insert_post(old(self).node, final(self).node, key@, value, result),
    {
        self.node.insert(key, value)
    }

    fn remove(&mut self, key: &K) -> (result: RemoveResult<K, V>)
        requires
            capacity_ok::<CAPACITY>(),
            old(self).node.root_inv(),
        ensures
            final(self).node.root_inv(),
            match result {
                RemoveResult::Missing => absent::<K, V>(old(self).node.entries(), key@)
                    && final(self).node.entries() == old(self).node.entries() && old(
                    self,
                ).node.same_tree(final(self).node),
                RemoveResult::Removed { value, .. } => exists|i: int|
                    removed_at::<K, V>(old(self).node.entries(), final(self).node.entries(), key@, i)
                        && value == old(self).node.entries()[i].1,
            },
    {
        let result = self.node.remove(key);
        match &result {
            RemoveResult::Missing => {},
            RemoveResult::Removed { .. } => self.node.normalize_root(),
        }
        result
    }
}

/// Ordered map whose node capacity is part of its type.
///
/// `CAPACITY` is the maximum number of entries or separators in a stable node.
/// Operations other than construction need it to be at least three.
pub struct BTree<K: OrderedKey, V, const CAPACITY: usize> {
    root: Root<K, V, CAPACITY>,
    length: EntryCount,
}

impl<K: OrderedKey, V, const CAPACITY: usize> BTree<K, V, CAPACITY> {
    /// The root is valid and the count matches the entries.
    pub closed spec fn well_formed(self) -> bool {
        &&& self.root.node.root_inv()
        &&& self.length.0 == self.root.node.entries().len()
    }
}

impl<K: OrderedKey, V, const CAPACITY: usize> View for BTree<K, V, CAPACITY> {
    /// The entries, as pairs of key views and values, in key order.
    type V = Seq<(K::V, V)>;

    closed spec fn view(&self) -> Seq<(K::V, V)> {
        self.root.node.entries()
    }
}

impl<K: OrderedKey, V, const CAPACITY: usize> BTree<K, V, CAPACITY> {
    /// Keys always strictly increase through the entries of a tree.
    pub proof fn lemma_sorted(tree: &Self)
        requires
            tree.well_formed(),
        ensures
            sorted::<K, V>(tree@),
    {
    }

    /// Every tree meets the structural invariants: keys strictly increase
    /// through the leaves, all leaves lie at the same depth, every separator
    /// equals the minimum key of the child to its right, every non-root node is
    /// at least half full, a branch root has at least two children, and the
    /// empty tree is one empty root leaf.
    pub proof fn lemma_structure(tree: &Self)
        requires
            capacity_ok::<CAPACITY>(),
            tree.well_formed(),
        ensures
            tree.root_node().root_inv(),
            tree@ == tree.root_node().entries(),
            tree@.len() == 0 ==> tree.root_node() is Leaf && tree.root_node().size() == 0,
    {
        if let Node::Branch(branch) = tree.root.node {
            branch.lemma_child(0);
            branch.lemma_split_at(0);
        }
    }

    /// Creates an empty tree without allocating an entry buffer.
    pub fn new() -> (tree: Self)
        requires
            capacity_ok::<CAPACITY>(),
        ensures
            tree.well_formed(),
            tree@ == Seq::<(K::V, V)>::empty(),
    {
        Self { root: Root::empty(), length: EntryCount::empty() }
    }

    /// Returns the number of stored entries.
    pub fn len(&self) -> (count: usize)
        requires
            self.well_formed(),
        ensures
            count == self@.len(),
    {
        self.length.get()
    }

    /// Returns whether the tree contains no entries.
    pub fn is_empty(&self) -> (empty: bool)
        requires
            self.well_formed(),
        ensures
            empty == (self@.len() == 0),
    {
        self.length.is_empty()
    }

    /// Removes all entries and restores the canonical empty root.
    pub fn clear(&mut self)
        ensures
            final(self).well_formed(),
            final(self)@ == Seq::<(K::V, V)>::empty(),
    {
        self.root = Root::empty();
        self.length = EntryCount::empty();
    }

    /// Returns the value associated with a key.
    pub fn get(&self, key: &K) -> (value: Option<&V>)
        requires
            capacity_ok::<CAPACITY>(),
            self.well_formed(),
        ensures
            match value {
                Some(value) => has_entry::<K, V>(self@, key@, *value) && entry_map(self@).get(key@)
                    == Some(*value),
                None => absent::<K, V>(self@, key@) && entry_map(self@).get(key@) is None,
            },
    {
        let value = self.root.get(key);
        proof {
            lemma_entry_map_sorted::<K, V>(self@);
            if let Some(found) = value {
                let i = choose|i: int| 0 <= i < self@.len() && #[trigger] self@[i] == (key@, *found);
                assert(self@[i].0 == key@);
            }
        }
        value
    }

    /// Returns the stored key and its value for a key.
    pub fn get_key_value(&self, key: &K) -> (pair: Option<(&K, &V)>)
        requires
            capacity_ok::<CAPACITY>(),
            self.well_formed(),
        ensures
            match pair {
                Some((stored, value)) => stored@ == key@ && has_entry::<K, V>(self@, key@, *value)
                    && entry_map(self@).get(key@) == Some(*value),
                None => absent::<K, V>(self@, key@) && entry_map(self@).get(key@) is None,
            },
    {
        let pair = self.root.node.get_key_value(key);
        proof {
            lemma_entry_map_sorted::<K, V>(self@);
            if let Some((_stored, found)) = pair {
                let i = choose|i: int| 0 <= i < self@.len() && #[trigger] self@[i] == (key@, *found);
                assert(self@[i].0 == key@);
            }
        }
        pair
    }

    /// Returns whether the tree contains a key.
    pub fn contains_key(&self, key: &K) -> (contained: bool)
        requires
            capacity_ok::<CAPACITY>(),
            self.well_formed(),
        ensures
            contained == !absent::<K, V>(self@, key@),
            contained == entry_map(self@).contains_key(key@),
    {
        match self.get(key) {
            Some(value) => {
                proof {
                    let i = choose|i: int| 0 <= i < self@.len() && #[trigger] self@[i] == (key@, *value);
                    assert(self@[i].0 == key@);
                }
                true
            },
            None => false,
        }
    }

    /// Returns the smallest key and its value, if present.
    pub fn first_key_value(&self) -> (pair: Option<(&K, &V)>)
        requires
            capacity_ok::<CAPACITY>(),
            self.well_formed(),
        ensures
            match pair {
                None => self@.len() == 0,
                Some((key, value)) => self@.len() > 0 && (key@, *value) == self@[0],
            },
    {
        self.root.first_key_value()
    }

    /// Returns the greatest key and its value, if present.
    pub fn last_key_value(&self) -> (pair: Option<(&K, &V)>)
        requires
            capacity_ok::<CAPACITY>(),
            self.well_formed(),
        ensures
            match pair {
                None => self@.len() == 0,
                Some((key, value)) => self@.len() > 0 && (key@, *value) == self@.last(),
            },
    {
        self.root.last_key_value()
    }

    /// Returns an immutable iterator over all entries in key order.
    pub fn iter(&self) -> (iter: Iter<'_, K, V, CAPACITY>)
        requires
            capacity_ok::<CAPACITY>(),
            self.well_formed(),
        ensures
            iter.wf(),
            iter@ == self@,
    {
        Iter::new(&self.root.node, self.length.get())
    }

    /// Returns an immutable iterator over the keys in order.
    pub fn keys(&self) -> (keys: Keys<'_, K, V, CAPACITY>)
        requires
            capacity_ok::<CAPACITY>(),
            self.well_formed(),
        ensures
            keys.wf(),
            keys@ == run_keys(self@),
    {
        Keys::new(self.iter())
    }

    /// Returns an immutable iterator over the values in key order.
    pub fn values(&self) -> (values: Values<'_, K, V, CAPACITY>)
        requires
            capacity_ok::<CAPACITY>(),
            self.well_formed(),
        ensures
            values.wf(),
            values@ == run_values(self@),
    {
        Values::new(self.iter())
    }

    /// Returns an immutable iterator over entries within the given bounds.
    ///
    /// Fails with `RangeError::StartAfterEnd` when the start sorts after the
    /// end, and with `RangeError::EmptyExcludedBounds` when equal bounds are
    /// not both included.
    pub fn range(&self, bounds: (Bound<K>, Bound<K>)) -> (result: Result<Range<'_, K, V, CAPACITY>, RangeError>)
        requires
            capacity_ok::<CAPACITY>(),
            self.well_formed(),
        ensures
            match result {
                Err(error) => bounds_error::<K>(bounds.0, bounds.1) == Some(error),
                Ok(range) => bounds_error::<K>(bounds.0, bounds.1) is None && range.wf()
                    && bounded_run::<K, V>(range@, self@, bounds.0, bounds.1),
            },
    {
        Range::new(&self.root.node, &bounds)
    }

    /// Inserts a key-value pair, returning whether a value was replaced.
    pub fn insert(&mut self, key: K, value: V) -> (outcome: InsertOutcome<V>)
        requires
            capacity_ok::<CAPACITY>(),
            old(self).well_formed(),
            old(self)@.len() < usize::MAX,
        ensures
            final(self).well_formed(),
            entry_map(final(self)@) == entry_map(old(self)@).insert(key@, value),
            final(self).root_node().height() == old(self).root_node().height()
                || final(self).root_node().height() == old(self).root_node().height() + 1,
            match outcome {
                InsertOutcome::Inserted => exists|i: int|
                    inserted_at::<K, V>(old(self)@, final(self)@, key@, value, i),
                InsertOutcome::Replaced { previous } => exists|i: int|
                    replaced_at::<K, V>(old(self)@, final(self)@, key@, value, i) && previous
                        == old(self)@[i].1,
            },
    {
        let ghost key_view = key@;
        let ghost old_entries = self.root.node.entries();
        match self.root.insert(key, value) {
            InsertResult::Inserted => {
                let ghost i = choose|i: int|
                    inserted_at::<K, V>(old_entries, self.root.node.entries(), key_view, value, i);
                self.length.increment();
                assert(inserted_at::<K, V>(old(self)@, self@, key_view, value, i));
                proof {
                    lemma_entry_map_inserted::<K, V>(old(self)@, self@, key_view, value, i);
                }
                InsertOutcome::Inserted
            },
            InsertResult::Replaced { previous } => {
                let ghost i = choose|i: int|
                    replaced_at::<K, V>(old_entries, self.root.node.entries(), key_view, value, i)
                        && previous == old_entries[i].1;
                assert(replaced_at::<K, V>(old(self)@, self@, key_view, value, i));
                assert(self.well_formed());
                proof {
                    lemma_entry_map_inserted::<K, V>(old(self)@, self@, key_view, value, i);
                }
                InsertOutcome::Replaced { previous }
            },
            InsertResult::InsertedAndSplit { separator, right } => {
                let ghost i = choose|i: int|
                    inserted_at::<K, V>(
                        old_entries,
                        self.root.node.entries() + right.entries(),
                        key_view,
                        value,
                        i,
                    );
                proof {
                    crate::node::lemma_sorted_insert::<K, V>(
                        old_entries,
                        self.root.node.entries() + right.entries(),
                        key_view,
                        value,
                        i,
                    );
                }
                self.length.increment();
                self.root.grow(separator, right);
                assert(inserted_at::<K, V>(old_entries, self.root.node.entries(), key_view, value, i));
                assert(inserted_at::<K, V>(old(self)@, self@, key_view, value, i));
                proof {
                    lemma_entry_map_inserted::<K, V>(old(self)@, self@, key_view, value, i);
                }
                InsertOutcome::Inserted
            },
        }
    }
}


impl<K: OrderedKey, V, const CAPACITY: usize> BTree<K, V, CAPACITY> {
    /// Returns a mutable value associated with a key.
    pub fn get_mut(&mut self, key: &K) -> (value: Option<&mut V>)
        requires
            capacity_ok::<CAPACITY>(),
            old(self).well_formed(),
        ensures
            final(self).well_formed(),
            match value {
                Some(value) => {
                    let i = key_index::<K, V>(old(self)@, key@);
                    &&& 0 <= i < old(self)@.len()
                    &&& old(self)@[i] == (key@, *value)
                    &&& final(self)@ == value_updated::<K, V>(old(self)@, i, *final(value))
                    &&& entry_map(final(self)@) == entry_map(old(self)@).insert(key@, *final(value))
                },
                None => absent::<K, V>(old(self)@, key@) && final(self)@ == old(self)@,
            },
    {
        proof {
            if exists|i: int| 0 <= i < self@.len() && self@[i].0 == key@ {
                lemma_entry_map_value_updated::<K, V>(self@, key_index::<K, V>(self@, key@));
            }
        }
        self.root.get_mut(key)
    }

    /// Removes a key and returns its value when present.
    pub fn remove(&mut self, key: &K) -> (outcome: RemoveOutcome<V>)
        requires
            capacity_ok::<CAPACITY>(),
            old(self).well_formed(),
        ensures
            final(self).well_formed(),
            entry_map(final(self)@) == entry_map(old(self)@).remove(key@),
            match outcome {
                RemoveOutcome::Removed { value } => exists|i: int|
                    removed_at::<K, V>(old(self)@, final(self)@, key@, i) && value == old(self)@[i].1,
                RemoveOutcome::Missing => absent::<K, V>(old(self)@, key@) && final(self)@ == old(self)@
                    && old(self).root_node().same_tree(final(self).root_node()),
            },
    {
        match self.root.remove(key) {
            RemoveResult::Missing => {
                proof {
                    lemma_entry_map_absent::<K, V>(old(self)@, key@);
                    assert(entry_map(old(self)@).remove(key@) =~= entry_map(old(self)@));
                }
                RemoveOutcome::Missing
            },
            RemoveResult::Removed { value, occupancy: _occupancy } => {
                let ghost i = choose|i: int|
                    removed_at::<K, V>(old(self)@, self@, key@, i) && value == old(self)@[i].1;
                self.length.decrement();
                assert(removed_at::<K, V>(old(self)@, self@, key@, i));
                proof {
                    lemma_entry_map_removed::<K, V>(old(self)@, self@, key@, i);
                }
                RemoveOutcome::Removed { value }
            },
        }
    }

    /// Removes and returns the least key-value pair, if present.
    pub fn pop_first(&mut self) -> (pair: Option<(K, V)>)
        requires
            capacity_ok::<CAPACITY>(),
            old(self).well_formed(),
        ensures
            final(self).well_formed(),
            match pair {
                None => old(self)@.len() == 0 && final(self)@ == old(self)@,
                Some((key, value)) => old(self)@.len() > 0 && (key@, value) == old(self)@[0]
                    && final(self)@ == old(self)@.drop_first()
                    && entry_map(final(self)@) == entry_map(old(self)@).remove(key@),
            },
    {
        let key = match self.first_key_value() {
            Some((key, _value)) => key.duplicate(),
            None => return None,
        };
        match self.remove(&key) {
            RemoveOutcome::Removed { value } => {
                proof {
                    let i = choose|i: int|
                        removed_at::<K, V>(old(self)@, self@, key@, i) && value == old(self)@[i].1;
                    crate::node::lemma_key_index::<K, V>(old(self)@, key@, i);
                    crate::node::lemma_key_index::<K, V>(old(self)@, key@, 0);
                    assert(old(self)@.remove(0) =~= old(self)@.drop_first());
                }
                Some((key, value))
            },
            RemoveOutcome::Missing => {
                proof {
                    assert(old(self)@[0].0 == key@);
                }
                None
            },
        }
    }

    /// Removes and returns the greatest key-value pair, if present.
    pub fn pop_last(&mut self) -> (pair: Option<(K, V)>)
        requires
            capacity_ok::<CAPACITY>(),
            old(self).well_formed(),
        ensures
            final(self).well_formed(),
            match pair {
                None => old(self)@.len() == 0 && final(self)@ == old(self)@,
                Some((key, value)) => old(self)@.len() > 0 && (key@, value) == old(self)@.last()
                    && final(self)@ == old(self)@.drop_last()
                    && entry_map(final(self)@) == entry_map(old(self)@).remove(key@),
            },
    {
        let key = match self.last_key_value() {
            Some((key, _value)) => key.duplicate(),
            None => return None,
        };
        match self.remove(&key) {
            RemoveOutcome::Removed { value } => {
                proof {
                    let last = old(self)@.len() - 1;
                    let i = choose|i: int|
                        removed_at::<K, V>(old(self)@, self@, key@, i) && value == old(self)@[i].1;
                    crate::node::lemma_key_index::<K, V>(old(self)@, key@, i);
                    crate::node::lemma_key_index::<K, V>(old(self)@, key@, last);
                    assert(old(self)@.remove(last) =~= old(self)@.drop_last());
                }
                Some((key, value))
            },
            RemoveOutcome::Missing => {
                proof {
                    assert(old(self)@[old(self)@.len() - 1].0 == key@);
                }
                None
            },
        }
    }

    /// Builds a tree around a root node assembled by hand, when the node
    /// meets the structural invariant of a root.
    pub fn from_root(node: Node<K, V, CAPACITY>) -> (tree: Option<Self>)
        requires
            capacity_ok::<CAPACITY>(),
        ensures
            match tree {
                Some(tree) => tree.well_formed() && tree@ == node.entries(),
                None => !node.root_inv() || node.entries().len() > usize::MAX,
            },
    {
        match node.validate_root() {
            Some(count) => Some(Self { root: Root { node }, length: EntryCount(count) }),
            None => None,
        }
    }

    /// Checks the structural invariant and the stored entry count at run
    /// time, and returns the counted entries.
    pub fn validate(&self) -> (count: Option<usize>)
        requires
            capacity_ok::<CAPACITY>(),
            self.well_formed(),
        ensures
            count == Some(self@.len() as usize),
    {
        match self.root.node.validate_root() {
            Some(count) => {
                if count == self.length.get() {
                    Some(count)
                } else {
                    None
                }
            },
            None => None,
        }
    }

    /// Number of levels below the root.
    pub fn height(&self) -> (levels: usize)
        requires
            capacity_ok::<CAPACITY>(),
            self.well_formed(),
        ensures
            levels == self.root_node().height(),
    {
        proof {
            if let Node::Branch(branch) = &self.root.node {
                branch.leftmost.lemma_height_bound();
                branch.lemma_split_at(0);
            }
        }
        self.root.node.height_levels()
    }

    /// The root node.
    pub closed spec fn root_node(self) -> Node<K, V, CAPACITY> {
        self.root.node
    }

    /// Whether the root is the canonical empty leaf.
    pub fn root_is_empty_leaf(&self) -> (empty: bool)
        ensures
            empty == (self.root_node() is Leaf && self.root_node().size() == 0),
    {
        self.root.node.is_empty_leaf()
    }

    /// Total allocated entry slots of the leaves.
    pub fn allocated_entry_capacity(&self) -> (capacity: usize)
        requires
            capacity_ok::<CAPACITY>(),
            self.well_formed(),
        ensures
            capacity >= self@.len(),
            self.root_node() matches Node::Branch(branch) ==> branch.sums_child_capacities(
                capacity as int,
            ),
    {
        self.root.node.allocated_entry_capacity()
    }
}

impl<K: OrderedKey, V, const CAPACITY: usize> BTree<K, V, CAPACITY> {
    /// Inserts each pair in turn, so a later pair for a key replaces the
    /// value of an earlier one.
    pub fn extend(&mut self, entries: Vec<(K, V)>)
        requires
            capacity_ok::<CAPACITY>(),
            old(self).well_formed(),
            old(self)@.len() + entries@.len() < usize::MAX,
        ensures
            final(self).well_formed(),
            entry_map(final(self)@) == entry_map(old(self)@ + owned_pairs(entries@)),
    {
        let ghost start = self@;
        let ghost all = entries@;
        for entry in iter: entries
            invariant
                capacity_ok::<CAPACITY>(),
                iter.seq() == all,
                start.len() + all.len() < usize::MAX,
                self.well_formed(),
                self@.len() <= start.len() + iter.index(),
                entry_map(self@) == entry_map(start + owned_pairs(all.take(iter.index() as int))),
        {
            let ghost done = iter.index() as int;
            let (key, value) = entry;
            let ghost pair = (key@, value);
            let _outcome = self.insert(key, value);
            proof {
                let before = start + owned_pairs(all.take(done));
                let after = start + owned_pairs(all.take(done + 1));
                assert(after.drop_last() =~= before);
                assert(after.last() == pair);
            }
        }
        proof {
            assert(all.take(all.len() as int) =~= all);
        }
    }

    /// Builds a tree from pairs inserted in turn, so a later pair for a key
    /// replaces the value of an earlier one.
    pub fn from_entries(entries: Vec<(K, V)>) -> (tree: Self)
        requires
            capacity_ok::<CAPACITY>(),
            entries@.len() < usize::MAX,
        ensures
            tree.well_formed(),
            entry_map(tree@) == entry_map(owned_pairs(entries@)),
    {
        let mut tree = Self::new();
        tree.extend(entries);
        proof {
            assert(Seq::<(K::V, V)>::empty() + owned_pairs(entries@) =~= owned_pairs(entries@));
        }
        tree
    }

    /// Hands over the entries in key order.
    pub fn into_entries(self) -> (entries: Vec<(K, V)>)
        requires
            capacity_ok::<CAPACITY>(),
            self.well_formed(),
        ensures
            owned_pairs(entries@) == self@,
    {
        let mut entries = Vec::with_capacity(self.length.get());
        self.root.node.append_owned_entries(&mut entries);
        proof {
            assert(owned_pairs(Seq::<(K, V)>::empty()) + self@ =~= self@);
        }
        entries
    }
}

/// The entries that a run of decisions keeps: each key with the value beside
/// it, where its flag is set.
pub open spec fn kept_entries<K: View, V>(decided: Seq<(K, V, bool)>) -> Seq<(K::V, V)>
    decreases decided.len(),
{
    if decided.len() == 0 {
        Seq::empty()
    } else {
        let rest = kept_entries(decided.drop_last());
        let last = decided.last();
        if last.2 {
            rest.push((last.0@, last.1))
        } else {
            rest
        }
    }
}

impl<K: OrderedKey, V, const CAPACITY: usize> BTree<K, V, CAPACITY> {
    /// Builds a tree from decided entries in strictly increasing key order,
    /// keeping those whose flag is set.
    pub fn from_decided_entries(decided: Vec<(K, V, bool)>) -> (tree: Self)
        requires
            capacity_ok::<CAPACITY>(),
            forall|i: int, j: int|
                0 <= i < j < decided@.len() ==> K::less(
                    (#[trigger] decided@[i]).0@,
                    (#[trigger] decided@[j]).0@,
                ),
        ensures
            tree.well_formed(),
            tree@ == kept_entries(decided@),
    {
        let mut tree = Self::new();
        let ghost all = decided@;
        let count = decided.len();
        for entry in iter: decided
            invariant
                capacity_ok::<CAPACITY>(),
                iter.seq() == all,
                all.len() == count,
                forall|i: int, j: int|
                    0 <= i < j < all.len() ==> K::less((#[trigger] all[i]).0@, (#[trigger] all[j]).0@),
                tree.well_formed(),
                tree@.len() <= iter.index(),
                tree@ == kept_entries(all.take(iter.index() as int)),
                forall|j: int, m: int|
                    0 <= j < tree@.len() && iter.index() <= m < all.len() ==> K::less(
                        (#[trigger] tree@[j]).0,
                        (#[trigger] all[m]).0@,
                    ),
        {
            let ghost done = iter.index() as int;
            let ghost before = tree@;
            let (key, value, kept) = entry;
            proof {
                assert(all.take(done + 1).drop_last() =~= all.take(done));
                assert(all[done] == (key, value, kept));
            }
            if kept {
                let ghost pair = (key@, value);
                let outcome = tree.insert(key, value);
                proof {
                    match outcome {
                        InsertOutcome::Inserted => {
                            let i = choose|i: int| inserted_at::<K, V>(before, tree@, pair.0, pair.1, i);
                            if i < before.len() {
                                assert(K::less(before[i].0, all[done].0@));
                            }
                            assert(tree@ =~= before.push(pair));
                        },
                        InsertOutcome::Replaced { .. } => {
                            let i = choose|i: int| replaced_at::<K, V>(before, tree@, pair.0, pair.1, i);
                            assert(K::less(before[i].0, all[done].0@));
                        },
                    }
                    assert forall|j: int, m: int|
                        0 <= j < tree@.len() && done + 1 <= m < all.len() implies K::less(
                        (#[trigger] tree@[j]).0,
                        (#[trigger] all[m]).0@,
                    ) by {
                        if j < before.len() {
                            assert(tree@[j] == before[j]);
                        } else {
                            assert(K::less(all[done].0@, all[m].0@));
                        }
                    }
                }
            }
        }
        proof {
            assert(all.take(all.len() as int) =~= all);
        }
        tree
    }

    /// Keeps the entries that `keep` accepts and removes the others. `keep`
    /// sees the entries in ascending key order and may update their values.
    ///
    /// For each entry, in key order, there is a decision: its key, the value
    /// that `keep` left in place of the old one, and the flag that `keep`
    /// answered for that key and value; the tree then holds the flagged
    /// decisions.
    pub fn retain<F: FnMut(&K, &mut V) -> bool>(&mut self, keep: F)
        requires
            capacity_ok::<CAPACITY>(),
            old(self).well_formed(),
            forall|key: &K, value: &mut V| call_requires(keep, (key, value)),
        ensures
            final(self).well_formed(),
            exists|decided: Seq<(K, V, bool)>|
                {
                    &&& decided.len() == old(self)@.len()
                    &&& forall|i: int|
                        0 <= i < decided.len() ==> (#[trigger] decided[i]).0@ == old(self)@[i].0
                            && (exists|value: &mut V|
                            #![trigger call_ensures(keep, (&decided[i].0, value), decided[i].2)]
                            *value == old(self)@[i].1 && *final(value) == decided[i].1
                                && call_ensures(keep, (&decided[i].0, value), decided[i].2))
                    &&& final(self)@ == kept_entries(decided)
                },
    {
        let ghost predicate = keep;
        let mut keep = keep;
        let mut taken = Self::new();
        std::mem::swap(self, &mut taken);
        let ghost pairs = taken@;
        let entries = taken.into_entries();
        let ghost all = entries@;
        let mut decided: Vec<(K, V, bool)> = Vec::new();
        for entry in iter: entries
            invariant
                iter.seq() == all,
                owned_pairs(all) == pairs,
                sorted::<K, V>(pairs),
                forall|key: &K, value: &mut V| call_requires(predicate, (key, value)),
                decided@.len() == iter.index(),
                keep == predicate,
                forall|i: int|
                    0 <= i < decided@.len() ==> (#[trigger] decided@[i]).0@ == pairs[i].0
                        && (exists|value: &mut V|
                        #![trigger call_ensures(predicate, (&decided@[i].0, value), decided@[i].2)]
                        *value == pairs[i].1 && *final(value) == decided@[i].1 && call_ensures(
                            predicate,
                            (&decided@[i].0, value),
                            decided@[i].2,
                        )),
        {
            let (key, value) = entry;
            let mut value = value;
            let ghost done = iter.index() as int;
            proof {
                assert(all[done].0@ == pairs[done].0);
                assert(all[done].1 == pairs[done].1);
            }
            let ghost start = value;
            let kept = keep(&key, &mut value);
            let ghost witness = choose|b: &mut V|
                #![trigger call_ensures(predicate, (&key, b), kept)]
                *b == start && *final(b) == value && call_ensures(predicate, (&key, b), kept);
            proof {
                assert(exists|b: &mut V|
                    #![trigger call_ensures(predicate, (&key, b), kept)]
                    *b == start && *final(b) == value && call_ensures(predicate, (&key, b), kept));
            }
            decided.push((key, value, kept));
            proof {
                assert(decided@[done] == (key, value, kept));
                assert(call_ensures(predicate, (&decided@[done].0, witness), decided@[done].2));
                assert(*witness == start && *final(witness) == decided@[done].1);
            }
        }
        proof {
            assert forall|i: int, j: int|
                0 <= i < j < decided@.len() implies K::less(
                (#[trigger] decided@[i]).0@,
                (#[trigger] decided@[j]).0@,
            ) by {
                assert(K::less(pairs[i].0, pairs[j].0));
            }
        }
        let ghost choices = decided@;
        *self = Self::from_decided_entries(decided);
        proof {
            assert(choices.len() == old(self)@.len() && (forall|i: int|
                0 <= i < choices.len() ==> (#[trigger] choices[i]).0@ == old(self)@[i].0
                    && (exists|value: &mut V|
                    #![trigger call_ensures(keep, (&choices[i].0, value), choices[i].2)]
                    *value == old(self)@[i].1 && *final(value) == choices[i].1 && call_ensures(
                        keep,
                        (&choices[i].0, value),
                        choices[i].2,
                    ))) && self@
                == kept_entries(choices));
        }
    }
}

impl<K: OrderedKey, V, const CAPACITY: usize> Default for BTree<K, V, CAPACITY> {
    fn default() -> (tree: Self)
        ensures
            tree.well_formed(),
            tree@ == Seq::<(K::V, V)>::empty(),
    {
        Self { root: Root::empty(), length: EntryCount::empty() }
    }
}

} // verus!
