//! Run-time checking of the structural invariant.
//!
//! A check walks a subtree and reports its height and entry count exactly when
//! the subtree meets the invariant, so that a tree can be built from a node
//! whose shape was assembled by hand.
use vstd::prelude::*;

use crate::key::group_key_order;
use crate::key::KeyOrder;
use crate::key::OrderedKey;
use crate::node::capacity_ok;
use crate::node::lemma_sorted_concat;
use crate::node::lemma_sorted_join;
use crate::node::sorted;
use crate::node::BranchNode;
use crate::node::LeafNode;
use crate::node::Node;

verus! {

broadcast use group_key_order;

/// Where a checked node stands: the root has no lower occupancy bound.
#[derive(Clone, Copy, Debug, PartialEq, Eq)]
pub enum ValidationPosition {
    Root,
    NonRoot,
}

/// Height and entry count of a subtree that passed its check.
#[derive(Clone, Copy, Debug, PartialEq, Eq)]
pub struct ValidationStats {
    pub height: usize,
    pub entry_count: usize,
}

impl ValidationStats {
    /// The stats of a leaf with `entry_count` entries.
    pub fn leaf(entry_count: usize) -> (stats: Self)
        ensures
            stats.height == 0,
            stats.entry_count == entry_count,
    {
        Self { height: 0, entry_count }
    }

    /// Combines the stats of two siblings, which must have the same height.
    pub fn merge_sibling(self, sibling: Self) -> (merged: Option<Self>)
        ensures
            match merged {
                Some(merged) => self.height == sibling.height && merged.height == self.height
                    && merged.entry_count == self.entry_count + sibling.entry_count,
                None => self.height != sibling.height || self.entry_count + sibling.entry_count
                    > usize::MAX,
            },
    {
        if self.height != sibling.height {
            return None;
        }
        match self.entry_count.checked_add(sibling.entry_count) {
            Some(entry_count) => Some(Self { height: self.height, entry_count }),
            None => None,
        }
    }

    /// The stats of the parent of children whose merged stats these are.
    pub fn into_parent(self) -> (parent: Self)
        requires
            self.height < usize::MAX,
        ensures
            parent.height == self.height + 1,
            parent.entry_count == self.entry_count,
    {
        Self { height: self.height + 1, entry_count: self.entry_count }
    }
}

impl<K: OrderedKey, V, const CAPACITY: usize> Node<K, V, CAPACITY> {
    /// The node meets the invariant; a non-root node is at least half full,
    /// and a root branch has at least two children.
    pub open spec fn valid_at(self, position: ValidationPosition) -> bool {
        &&& self.inv()
        &&& position is NonRoot ==> !self.underfull()
        &&& position is Root ==> self.stable_shape()
    }

    /// The stats that a check of a valid node reports.
    pub open spec fn checked(self, position: ValidationPosition, stats: Option<ValidationStats>) -> bool {
        match stats {
            Some(stats) => {
                &&& self.valid_at(position)
                &&& stats.height == self.height()
                &&& stats.entry_count == self.entries().len()
            },
            None => !self.valid_at(position) || self.entries().len() > usize::MAX,
        }
    }

    /// A valid node that is at least half full has more entries than levels.
    pub proof fn lemma_height_bound(self)
        requires
            capacity_ok::<CAPACITY>(),
            self.inv(),
            !self.underfull(),
        ensures
            self.height() < self.entries().len(),
        decreases self,
    {
        if let Node::Branch(branch) = self {
            branch.leftmost.lemma_height_bound();
            branch.lemma_child(1);
            branch.lemma_split_at(1);
            assert(branch.before(1) =~= branch.leftmost.entries()) by {
                assert(Node::<K, V, CAPACITY>::edges_entries(branch.rightward@, 0) =~= Seq::empty());
            }
        }
    }
}

impl<K: OrderedKey, V, const CAPACITY: usize> LeafNode<K, V, CAPACITY> {
    /// Checks occupancy and strictly increasing keys.
    pub fn validate(&self, position: ValidationPosition) -> (stats: Option<ValidationStats>)
        requires
            capacity_ok::<CAPACITY>(),
        ensures
            Node::Leaf(*self).checked(position, stats),
    {
        let ghost node = Node::<K, V, CAPACITY>::Leaf(*self);
        let ghost pairs = self.pairs();
        let count = self.entries.len();
        proof {
            assert(node.entries() == pairs);
            assert(pairs.len() == count);
        }
        if count > CAPACITY {
            return None;
        }
        match position {
            ValidationPosition::Root => {},
            ValidationPosition::NonRoot => {
                if count < CAPACITY - CAPACITY / 2 {
                    return None;
                }
            },
        }
        let mut index: usize = 1;
        while index < count
            invariant
                pairs == self.pairs(),
                count == pairs.len(),
                1 <= index,
                index <= count || count == 0,
                count > 0 ==> sorted::<K, V>(pairs.take(index as int)),
            decreases count - index,
        {
            assert(pairs[index - 1].0 == self.entries@[index - 1].key@);
            assert(pairs[index as int].0 == self.entries@[index as int].key@);
            match self.entries[index - 1].key().compare(self.entries[index].key()) {
                KeyOrder::Less => {},
                _ => {
                    proof {
                        assert(pairs.take(index as int) =~= pairs.take(index as int));
                        if sorted::<K, V>(pairs) {
                            assert(K::less(pairs[index - 1].0, pairs[index as int].0));
                        }
                    }
                    return None;
                },
            }
            proof {
                let before = pairs.take(index as int);
                let after = pairs.take(index + 1);
                assert forall|i: int, j: int|
                    #![trigger after[i], after[j]]
                    0 <= i < j < after.len() implies K::less(after[i].0, after[j].0) by {
                    assert(after[i] == pairs[i]);
                    assert(after[j] == pairs[j]);
                    if j < index {
                        assert(before[i] == pairs[i] && before[j] == pairs[j]);
                    } else if i < index - 1 {
                        assert(before[i] == pairs[i] && before[index - 1] == pairs[index - 1]);
                    }
                }
            }
            index = index + 1;
        }
        proof {
            if count > 0 {
                assert(pairs.take(count as int) =~= pairs);
            } else {
                assert(pairs =~= Seq::empty());
            }
        }
        Some(ValidationStats::leaf(count))
    }
}

impl<K: OrderedKey, V, const CAPACITY: usize> Node<K, V, CAPACITY> {
    /// Checks the structural invariant of a subtree, and that it is at least
    /// half full unless it is the root; reports its height and entry count.
    pub fn validate(&self, position: ValidationPosition) -> (stats: Option<ValidationStats>)
        requires
            capacity_ok::<CAPACITY>(),
        ensures
            self.checked(position, stats),
        decreases self,
    {
        match self {
            Node::Leaf(leaf) => leaf.validate(position),
            Node::Branch(branch) => branch.validate(position),
        }
    }
}

impl<K: OrderedKey, V, const CAPACITY: usize> BranchNode<K, V, CAPACITY> {
    /// Checks occupancy, each child, equal child heights, separators equal to
    /// their children's minimum keys, and keys increasing from each child to
    /// the next.
    pub fn validate(&self, position: ValidationPosition) -> (stats: Option<ValidationStats>)
        requires
            capacity_ok::<CAPACITY>(),
        ensures
            Node::Branch(*self).checked(position, stats),
        decreases self,
    {
        let ghost node = Node::<K, V, CAPACITY>::Branch(*self);
        let edge_count = self.rightward.len();
        if edge_count > CAPACITY {
            return None;
        }
        match position {
            ValidationPosition::Root => {
                if edge_count < 1 {
                    return None;
                }
            },
            ValidationPosition::NonRoot => {
                if edge_count < CAPACITY / 2 {
                    return None;
                }
            },
        }
        let first = match self.leftmost.validate(ValidationPosition::NonRoot) {
            Some(first) => first,
            None => {
                proof {
                    if node.valid_at(position) {
                        self.lemma_child(0);
                        self.lemma_split_at(0);
                    }
                }
                return None;
            },
        };
        let mut stats = first;
        proof {
            self.leftmost.lemma_height_bound();
        }
        let mut last = match self.leftmost.last_key_value() {
            Some((key, _value)) => key,
            None => {
                proof {
                    self.leftmost.lemma_nonempty();
                }
                return None;
            },
        };
        let mut index: usize = 0;
        while index < edge_count
            invariant
                capacity_ok::<CAPACITY>(),
                node == Node::Branch(*self),
                edge_count == self.rightward@.len() <= CAPACITY,
                position is NonRoot ==> !node.underfull(),
                self.leftmost.inv(),
                !self.leftmost.underfull(),
                stats.height == self.leftmost.height(),
                stats.height < stats.entry_count,
                0 <= index <= edge_count,
                forall|i: int|
                    0 <= i < index ==> Node::<K, V, CAPACITY>::edge_ok(
                        #[trigger] self.rightward@[i],
                        self.leftmost.height(),
                    ),
                sorted::<K, V>(self.before(index + 1)),
                stats.entry_count == self.before(index + 1).len(),
                self.before(index + 1).len() > 0,
                last@ == self.before(index + 1).last().0,
            decreases edge_count - index,
        {
            let edge = &self.rightward[index];
            let ghost prefix = self.before(index + 1);
            proof {
                self.lemma_before_step(index + 1);
                assert(decreases_to!(self => self.rightward));
                assert(decreases_to!(self.rightward => self.rightward@[index as int]));
            }
            let child_stats = match edge.child.validate(ValidationPosition::NonRoot) {
                Some(child_stats) => child_stats,
                None => {
                    proof {
                        if node.valid_at(position) {
                            self.lemma_child(index + 1);
                            self.lemma_split_at(index + 1);
                            assert(edge.child.entries().len() <= node.entries().len());
                        }
                    }
                    return None;
                },
            };
            if child_stats.height != stats.height {
                proof {
                    if node.valid_at(position) {
                        self.lemma_child(index + 1);
                    }
                }
                return None;
            }
            let minimum = match edge.child.minimum_key() {
                Some(minimum) => minimum,
                None => {
                    proof {
                        edge.child.lemma_nonempty();
                    }
                    return None;
                },
            };
            match edge.lower_bound.compare(minimum) {
                KeyOrder::Equal => {},
                _ => {
                    proof {
                        if node.valid_at(position) {
                            self.lemma_child(index + 1);
                        }
                    }
                    return None;
                },
            }
            match last.compare(minimum) {
                KeyOrder::Less => {},
                _ => {
                    proof {
                        if node.valid_at(position) {
                            self.lemma_split_at(index + 1);
                            let b = self.before(index + 1);
                            let c = edge.child.entries();
                            lemma_sorted_concat::<K, V>(b + c, self.after(index + 1));
                            lemma_sorted_concat::<K, V>(b, c);
                            assert(K::less(b[b.len() - 1].0, c[0].0));
                        }
                    }
                    return None;
                },
            }
            proof {
                self.lemma_split_at(index + 1);
            }
            stats = match stats.merge_sibling(child_stats) {
                Some(merged) => merged,
                None => {
                    proof {
                        assert(node.entries().len() >= self.before(index + 2).len());
                    }
                    return None;
                },
            };
            proof {
                let b = prefix;
                let c = edge.child.entries();
                assert forall|i: int, j: int|
                    #![trigger b[i], c[j]]
                    0 <= i < b.len() && 0 <= j < c.len() implies K::less(b[i].0, c[j].0) by {
                    if i < b.len() - 1 {
                        assert(K::less(b[i].0, b[b.len() - 1].0));
                    }
                    if j > 0 {
                        assert(K::less(c[0].0, c[j].0));
                    }
                }
                lemma_sorted_join::<K, V>(b, c);
                assert(Node::<K, V, CAPACITY>::edge_ok(self.rightward@[index as int], self.leftmost.height()));
                assert((b + c).last() == c.last());
            }
            last = match edge.child.last_key_value() {
                Some((key, _value)) => key,
                None => return None,
            };
            index = index + 1;
        }
        proof {
            assert(self.before(edge_count + 1) =~= node.entries()) by {
                self.lemma_split_at(edge_count as int);
                self.lemma_before_step(edge_count as int);
                assert(self.rightward@.skip(edge_count as int) =~= Seq::empty());
                assert(Node::<K, V, CAPACITY>::all_edges_entries(Seq::empty()) =~= Seq::empty());
            }
        }
        Some(stats.into_parent())
    }
}

impl<K: OrderedKey, V, const CAPACITY: usize> Node<K, V, CAPACITY> {
    /// Checks that the node is a valid root and returns its entry count.
    pub fn validate_root(&self) -> (count: Option<usize>)
        requires
            capacity_ok::<CAPACITY>(),
        ensures
            match count {
                Some(count) => self.root_inv() && count == self.entries().len(),
                None => !self.root_inv() || self.entries().len() > usize::MAX,
            },
    {
        match self.validate(ValidationPosition::Root) {
            Some(stats) => Some(stats.entry_count),
            None => None,
        }
    }
}

} // verus!
