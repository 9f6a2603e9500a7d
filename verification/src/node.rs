//! B+-tree representation and structural mutation.
//!
//! Values are owned only by leaves. A branch owns its leftmost child separately;
//! every later child is paired with a separator equal to that child's minimum
//! key. Stable leaves contain at most `CAPACITY` entries, stable branches contain
//! at most `CAPACITY` separator-child edges, and all leaves have the same depth.
use vstd::prelude::*;

use crate::key::group_key_order;
use crate::key::lemma_key_less_total;
use crate::key::KeyOrder;
use crate::key::OrderedKey;

verus! {

broadcast use group_key_order;

// ---------------------------------------------------------------------------
// Sequences of key views and values
// ---------------------------------------------------------------------------

/// Keys strictly increase along the sequence.
pub open spec fn sorted<K: OrderedKey, V>(s: Seq<(K::V, V)>) -> bool {
    forall|i: int, j: int| #![trigger s[i], s[j]] 0 <= i < j < s.len() ==> K::less(s[i].0, s[j].0)
}

/// Every key of the sequence sorts before `key`.
pub open spec fn all_below<K: OrderedKey, V>(s: Seq<(K::V, V)>, key: K::V) -> bool {
    forall|i: int| #![trigger s[i]] 0 <= i < s.len() ==> K::less(s[i].0, key)
}

/// Every key of the sequence sorts after `key`.
pub open spec fn all_above<K: OrderedKey, V>(s: Seq<(K::V, V)>, key: K::V) -> bool {
    forall|i: int| #![trigger s[i]] 0 <= i < s.len() ==> K::less(key, s[i].0)
}

/// No entry of the sequence has the key.
pub open spec fn absent<K: OrderedKey, V>(s: Seq<(K::V, V)>, key: K::V) -> bool {
    forall|i: int| #![trigger s[i]] 0 <= i < s.len() ==> s[i].0 != key
}

/// `new` is `old` with `(key, value)` placed at `index`, between the smaller and
/// the greater keys.
pub open spec fn inserted_at<K: OrderedKey, V>(
    old: Seq<(K::V, V)>,
    new: Seq<(K::V, V)>,
    key: K::V,
    value: V,
    index: int,
) -> bool {
    &&& 0 <= index <= old.len()
    &&& new == old.insert(index, (key, value))
    &&& forall|j: int| #![trigger old[j]] 0 <= j < index ==> K::less(old[j].0, key)
    &&& forall|j: int| #![trigger old[j]] index <= j < old.len() ==> K::less(key, old[j].0)
}

/// `new` is `old` with the value of the entry for `key`, at `index`, replaced.
pub open spec fn replaced_at<K: OrderedKey, V>(
    old: Seq<(K::V, V)>,
    new: Seq<(K::V, V)>,
    key: K::V,
    value: V,
    index: int,
) -> bool {
    &&& 0 <= index < old.len()
    &&& old[index].0 == key
    &&& new == old.update(index, (key, value))
}

/// `new` is `old` without the entry for `key`, which stood at `index`.
pub open spec fn removed_at<K: OrderedKey, V>(
    old: Seq<(K::V, V)>,
    new: Seq<(K::V, V)>,
    key: K::V,
    index: int,
) -> bool {
    &&& 0 <= index < old.len()
    &&& old[index].0 == key
    &&& new == old.remove(index)
}

pub proof fn lemma_sorted_concat<K: OrderedKey, V>(a: Seq<(K::V, V)>, b: Seq<(K::V, V)>)
    requires
        sorted::<K, V>(a + b),
    ensures
        sorted::<K, V>(a),
        sorted::<K, V>(b),
        forall|i: int, j: int|
            #![trigger a[i], b[j]]
            0 <= i < a.len() && 0 <= j < b.len() ==> K::less(a[i].0, b[j].0),
{
    let s = a + b;
    assert forall|i: int, j: int| 0 <= i < j < a.len() implies #[trigger] K::less(a[i].0, a[j].0) by {
        assert(s[i] == a[i] && s[j] == a[j]);
    }
    assert forall|i: int, j: int| 0 <= i < j < b.len() implies #[trigger] K::less(b[i].0, b[j].0) by {
        assert(s[a.len() + i] == b[i] && s[a.len() + j] == b[j]);
    }
    assert forall|i: int, j: int| 0 <= i < a.len() && 0 <= j < b.len() implies #[trigger] K::less(a[i].0, b[j].0) by {
        assert(s[i] == a[i] && s[a.len() + j] == b[j]);
    }
}

pub proof fn lemma_sorted_join<K: OrderedKey, V>(a: Seq<(K::V, V)>, b: Seq<(K::V, V)>)
    requires
        sorted::<K, V>(a),
        sorted::<K, V>(b),
        forall|i: int, j: int|
            #![trigger a[i], b[j]]
            0 <= i < a.len() && 0 <= j < b.len() ==> K::less(a[i].0, b[j].0),
    ensures
        sorted::<K, V>(a + b),
{
    let s = a + b;
    assert forall|i: int, j: int| 0 <= i < j < s.len() implies #[trigger] K::less(s[i].0, s[j].0) by {
        if j < a.len() {
            assert(s[i] == a[i] && s[j] == a[j]);
        } else if i < a.len() {
            assert(s[i] == a[i] && s[j] == b[j - a.len()]);
        } else {
            assert(s[i] == b[i - a.len()] && s[j] == b[j - a.len()]);
        }
    }
}

pub proof fn lemma_sorted_insert<K: OrderedKey, V>(
    old: Seq<(K::V, V)>,
    new: Seq<(K::V, V)>,
    key: K::V,
    value: V,
    index: int,
)
    requires
        sorted::<K, V>(old),
        inserted_at::<K, V>(old, new, key, value, index),
    ensures
        sorted::<K, V>(new),
{
    assert forall|i: int, j: int| 0 <= i < j < new.len() implies #[trigger] K::less(new[i].0, new[j].0) by {
        if j < index {
            assert(new[i] == old[i] && new[j] == old[j]);
        } else if j == index {
            assert(new[i] == old[i]);
        } else if i < index {
            assert(new[i] == old[i] && new[j] == old[j - 1]);
        } else if i == index {
            assert(new[j] == old[j - 1]);
        } else {
            assert(new[i] == old[i - 1] && new[j] == old[j - 1]);
        }
    }
}

pub proof fn lemma_sorted_update_value<K: OrderedKey, V>(
    old: Seq<(K::V, V)>,
    new: Seq<(K::V, V)>,
    key: K::V,
    value: V,
    index: int,
)
    requires
        sorted::<K, V>(old),
        replaced_at::<K, V>(old, new, key, value, index),
    ensures
        sorted::<K, V>(new),
{
    assert forall|i: int, j: int| 0 <= i < j < new.len() implies #[trigger] K::less(new[i].0, new[j].0) by {
        assert(new[i].0 == old[i].0 && new[j].0 == old[j].0);
    }
}

pub proof fn lemma_sorted_remove<K: OrderedKey, V>(old: Seq<(K::V, V)>, index: int)
    requires
        sorted::<K, V>(old),
        0 <= index < old.len(),
    ensures
        sorted::<K, V>(old.remove(index)),
{
    let new = old.remove(index);
    assert forall|i: int, j: int| 0 <= i < j < new.len() implies #[trigger] K::less(new[i].0, new[j].0) by {
        if j < index {
            assert(new[i] == old[i] && new[j] == old[j]);
        } else if i < index {
            assert(new[i] == old[i] && new[j] == old[j + 1]);
        } else {
            assert(new[i] == old[i + 1] && new[j] == old[j + 1]);
        }
    }
}

pub proof fn lemma_sorted_subrange<K: OrderedKey, V>(s: Seq<(K::V, V)>, low: int, high: int)
    requires
        sorted::<K, V>(s),
        0 <= low <= high <= s.len(),
    ensures
        sorted::<K, V>(s.subrange(low, high)),
{
    let t = s.subrange(low, high);
    assert forall|i: int, j: int| 0 <= i < j < t.len() implies #[trigger] K::less(t[i].0, t[j].0) by {
        assert(t[i] == s[low + i] && t[j] == s[low + j]);
    }
}

/// Two adjacent parts of a sorted sequence form a sorted sequence.
pub proof fn lemma_sorted_middle_pair<K: OrderedKey, V>(
    a: Seq<(K::V, V)>,
    l: Seq<(K::V, V)>,
    r: Seq<(K::V, V)>,
    b: Seq<(K::V, V)>,
)
    requires
        sorted::<K, V>(a + l + r + b),
    ensures
        sorted::<K, V>(l + r),
{
    let s = a + l + r + b;
    lemma_sorted_subrange::<K, V>(s, a.len() as int, (a.len() + l.len() + r.len()) as int);
    assert(s.subrange(a.len() as int, (a.len() + l.len() + r.len()) as int) =~= l + r);
}

// ---------------------------------------------------------------------------
// Node representation
// ---------------------------------------------------------------------------

/// A stored key and its value.
#[derive(Debug, PartialEq, Eq)]
pub struct Entry<K, V> {
    pub key: K,
    pub value: V,
}

/// Position in a leaf's entry buffer.
#[derive(Clone, Copy, Debug, PartialEq, Eq)]
pub struct EntryIndex(pub usize);

/// Position returned by a leaf binary search.
#[derive(Clone, Copy, Debug, PartialEq, Eq)]
pub enum SearchSlot {
    Occupied(EntryIndex),
    Vacant(EntryIndex),
}

/// Sorted entries owned by a leaf node.
#[derive(Debug, PartialEq, Eq)]
pub struct LeafNode<K, V, const CAPACITY: usize> {
    pub entries: Vec<Entry<K, V>>,
}

/// Separator paired with the child whose minimum it duplicates.
#[derive(Debug, PartialEq, Eq)]
pub struct BranchEdge<K, V, const CAPACITY: usize> {
    pub lower_bound: K,
    pub child: Box<Node<K, V, CAPACITY>>,
}

/// Leftmost child plus ordered separator-child edges.
#[derive(Debug, PartialEq, Eq)]
pub struct BranchNode<K, V, const CAPACITY: usize> {
    pub leftmost: Box<Node<K, V, CAPACITY>>,
    pub rightward: Vec<BranchEdge<K, V, CAPACITY>>,
}

/// Closed set of node shapes.
#[derive(Debug, PartialEq, Eq)]
pub enum Node<K, V, const CAPACITY: usize> {
    Leaf(LeafNode<K, V, CAPACITY>),
    Branch(BranchNode<K, V, CAPACITY>),
}

/// The pairs of key views and values held by a run of entries.
pub open spec fn entry_pairs<K: View, V>(entries: Seq<Entry<K, V>>) -> Seq<(K::V, V)> {
    entries.map_values(|entry: Entry<K, V>| (entry.key@, entry.value))
}

impl<K: OrderedKey, V, const CAPACITY: usize> Node<K, V, CAPACITY> {
    /// The entries of the subtree, in leaf order.
    pub open spec fn entries(self) -> Seq<(K::V, V)>
        decreases self, 0nat,
    {
        match self {
            Node::Leaf(leaf) => entry_pairs(leaf.entries@),
            Node::Branch(branch) => branch.leftmost.entries() + Self::edges_entries(
                branch.rightward@,
                branch.rightward@.len() as nat,
            ),
        }
    }

    /// The entries of the children of the first `count` edges.
    pub open spec fn edges_entries(edges: Seq<BranchEdge<K, V, CAPACITY>>, count: nat) -> Seq<
        (K::V, V),
    >
        decreases edges, count,
    {
        if count == 0 || count > edges.len() {
            Seq::empty()
        } else {
            Self::edges_entries(edges, (count - 1) as nat) + edges[count - 1].child.entries()
        }
    }

    /// The entries of the children of all edges.
    pub open spec fn all_edges_entries(edges: Seq<BranchEdge<K, V, CAPACITY>>) -> Seq<(K::V, V)> {
        Self::edges_entries(edges, edges.len())
    }
}


impl<K: OrderedKey, V, const CAPACITY: usize> Node<K, V, CAPACITY> {
    /// Number of levels below this node.
    pub open spec fn height(self) -> nat
        decreases self,
    {
        match self {
            Node::Leaf(_) => 0,
            Node::Branch(branch) => branch.leftmost.height() + 1,
        }
    }

    /// Entries of a leaf, or children of a branch.
    pub open spec fn size(self) -> nat {
        match self {
            Node::Leaf(leaf) => leaf.entries@.len(),
            Node::Branch(branch) => branch.rightward@.len() + 1,
        }
    }

    /// Least size of a non-root node: half the entries of a leaf, half the
    /// children of a branch, rounded up.
    pub open spec fn min_size(self) -> nat {
        match self {
            Node::Leaf(_) => ((CAPACITY + 1) / 2) as nat,
            Node::Branch(_) => ((CAPACITY + 2) / 2) as nat,
        }
    }

    /// Greatest size of a stable node.
    pub open spec fn max_size(self) -> nat {
        match self {
            Node::Leaf(_) => CAPACITY as nat,
            Node::Branch(_) => (CAPACITY + 1) as nat,
        }
    }

    pub open spec fn underfull(self) -> bool {
        self.size() < self.min_size()
    }

    pub open spec fn lendable(self) -> bool {
        self.size() > self.min_size()
    }

    /// A leaf, or a branch with at least two children.
    pub open spec fn stable_shape(self) -> bool {
        match self {
            Node::Leaf(_) => true,
            Node::Branch(branch) => branch.rightward@.len() >= 1,
        }
    }

    /// Structural invariant of a subtree, except the occupancy lower bound of
    /// the node itself: sizes within capacity, keys strictly increasing, every
    /// child at least half full and of equal height, and every separator equal
    /// to the minimum key of its child.
    pub open spec fn inv(self) -> bool
        decreases self,
    {
        &&& self.size() <= self.max_size()
        &&& sorted::<K, V>(self.entries())
        &&& match self {
            Node::Leaf(_) => true,
            Node::Branch(branch) => {
                &&& branch.leftmost.inv()
                &&& !branch.leftmost.underfull()
                &&& forall|i: int|
                    0 <= i < branch.rightward@.len() ==> Self::edge_ok(
                        #[trigger] branch.rightward@[i],
                        branch.leftmost.height(),
                    )
            },
        }
    }

    /// A separator-child edge whose child is a valid, half-full subtree of the
    /// given height, and whose separator is the child's minimum key.
    pub open spec fn edge_ok(edge: BranchEdge<K, V, CAPACITY>, height: nat) -> bool
        decreases edge,
    {
        &&& edge.child.inv()
        &&& !edge.child.underfull()
        &&& edge.child.height() == height
        &&& edge.child.entries().len() > 0
        &&& edge.lower_bound@ == edge.child.entries()[0].0
    }

    /// A valid root: the invariant plus a stable shape.
    pub open spec fn root_inv(self) -> bool {
        self.inv() && self.stable_shape()
    }
}

impl<K: OrderedKey, V, const CAPACITY: usize> BranchNode<K, V, CAPACITY> {
    /// The child at an ordered position: the leftmost, then each edge's child.
    pub open spec fn child(self, position: int) -> Node<K, V, CAPACITY> {
        if position == 0 {
            *self.leftmost
        } else {
            *self.rightward@[position - 1].child
        }
    }

    pub open spec fn entries(self) -> Seq<(K::V, V)> {
        Node::Branch(self).entries()
    }

    /// Entries of the children before the given position.
    pub open spec fn before(self, position: int) -> Seq<(K::V, V)> {
        if position <= 0 {
            Seq::empty()
        } else {
            self.leftmost.entries() + Node::<K, V, CAPACITY>::edges_entries(
                self.rightward@,
                (position - 1) as nat,
            )
        }
    }

    /// Entries of the children after the given position.
    pub open spec fn after(self, position: int) -> Seq<(K::V, V)> {
        Node::<K, V, CAPACITY>::all_edges_entries(self.rightward@.skip(position))
    }

    pub open spec fn height(self) -> nat {
        self.leftmost.height() + 1
    }

    pub open spec fn inv(self) -> bool {
        Node::Branch(self).inv()
    }
}

// ---------------------------------------------------------------------------
// Lemmas on the entries of branch edges
// ---------------------------------------------------------------------------

/// Edge prefixes whose children agree hold the same entries.
pub proof fn lemma_edges_entries_same_children<K: OrderedKey, V, const CAPACITY: usize>(
    a: Seq<BranchEdge<K, V, CAPACITY>>,
    b: Seq<BranchEdge<K, V, CAPACITY>>,
    count: nat,
)
    requires
        count <= a.len(),
        count <= b.len(),
        forall|i: int| 0 <= i < count ==> (#[trigger] a[i]).child == b[i].child,
    ensures
        Node::<K, V, CAPACITY>::edges_entries(a, count) == Node::<K, V, CAPACITY>::edges_entries(
            b,
            count,
        ),
    decreases count,
{
    if count > 0 {
        lemma_edges_entries_same_children(a, b, (count - 1) as nat);
        assert(a[count - 1].child == b[count - 1].child);
    }
}

pub proof fn lemma_edges_entries_concat<K: OrderedKey, V, const CAPACITY: usize>(
    a: Seq<BranchEdge<K, V, CAPACITY>>,
    b: Seq<BranchEdge<K, V, CAPACITY>>,
)
    ensures
        Node::<K, V, CAPACITY>::all_edges_entries(a + b) == Node::<K, V, CAPACITY>::all_edges_entries(a)
            + Node::<K, V, CAPACITY>::all_edges_entries(b),
    decreases b.len(),
{
    if b.len() == 0 {
        assert(a + b =~= a);
        assert(Node::<K, V, CAPACITY>::all_edges_entries(b) =~= Seq::empty());
    } else {
        let b0 = b.drop_last();
        lemma_edges_entries_concat(a, b0);
        let n = (a.len() + b.len()) as nat;
        assert((a + b).len() == n);
        lemma_edges_entries_same_children(a + b, a + b0, (n - 1) as nat);
        lemma_edges_entries_same_children(b, b0, (b.len() - 1) as nat);
        assert((a + b)[n - 1] == b[b.len() - 1]);
        assert(Node::<K, V, CAPACITY>::all_edges_entries(a + b) =~= Node::<K, V, CAPACITY>::edges_entries(
            a + b0,
            (n - 1) as nat,
        ) + b[b.len() - 1].child.entries());
    }
}

pub proof fn lemma_edges_entries_single<K: OrderedKey, V, const CAPACITY: usize>(
    edge: BranchEdge<K, V, CAPACITY>,
)
    ensures
        Node::<K, V, CAPACITY>::all_edges_entries(seq![edge]) == edge.child.entries(),
{
    assert(Node::<K, V, CAPACITY>::edges_entries(seq![edge], 0) =~= Seq::empty());
    assert(Node::<K, V, CAPACITY>::all_edges_entries(seq![edge]) =~= edge.child.entries());
}

/// The entries of all edges split at any count into the first edges and the rest.
pub proof fn lemma_edges_entries_split<K: OrderedKey, V, const CAPACITY: usize>(
    edges: Seq<BranchEdge<K, V, CAPACITY>>,
    count: int,
)
    requires
        0 <= count <= edges.len(),
    ensures
        Node::<K, V, CAPACITY>::all_edges_entries(edges) == Node::<K, V, CAPACITY>::edges_entries(
            edges,
            count as nat,
        ) + Node::<K, V, CAPACITY>::all_edges_entries(edges.skip(count)),
{
    let front = edges.take(count);
    let back = edges.skip(count);
    assert(edges =~= front + back);
    lemma_edges_entries_concat(front, back);
    lemma_edges_entries_same_children(front, edges, count as nat);
}

impl<K: OrderedKey, V, const CAPACITY: usize> BranchNode<K, V, CAPACITY> {
    /// A branch's entries are those before a child, the child's, and those after.
    pub proof fn lemma_split_at(self, position: int)
        requires
            0 <= position <= self.rightward@.len(),
        ensures
            self.entries() == self.before(position) + self.child(position).entries() + self.after(
                position,
            ),
    {
        let edges = self.rightward@;
        lemma_edges_entries_split(edges, position);
        if position == 0 {
            assert(edges.skip(0) =~= edges);
            assert(Node::<K, V, CAPACITY>::edges_entries(edges, 0) =~= Seq::empty());
            assert(self.entries() =~= self.before(position) + self.child(position).entries()
                + self.after(position));
        } else {
            assert(self.entries() =~= self.before(position) + self.child(position).entries()
                + self.after(position));
        }
    }

    /// The entries before the next child extend those before this one by this
    /// child's entries.
    pub proof fn lemma_before_step(self, position: int)
        requires
            0 <= position <= self.rightward@.len(),
        ensures
            self.before(position + 1) == self.before(position) + self.child(position).entries(),
    {
        if position == 0 {
            assert(Node::<K, V, CAPACITY>::edges_entries(self.rightward@, 0) =~= Seq::empty());
            assert(self.before(1) =~= self.leftmost.entries());
            assert(self.before(0) + self.child(0).entries() =~= self.leftmost.entries());
        } else {
            assert(self.before(position + 1) =~= self.before(position) + self.child(
                position,
            ).entries());
        }
    }
}


impl<K: OrderedKey, V, const CAPACITY: usize> Node<K, V, CAPACITY> {
    /// A valid node that is at least half full holds at least one entry.
    pub proof fn lemma_nonempty(self)
        requires
            3 <= CAPACITY,
            self.inv(),
            !self.underfull(),
        ensures
            self.entries().len() > 0,
        decreases self,
    {
        match self {
            Node::Leaf(leaf) => {},
            Node::Branch(branch) => {
                branch.leftmost.lemma_nonempty();
            },
        }
    }
}

impl<K: OrderedKey, V, const CAPACITY: usize> BranchNode<K, V, CAPACITY> {
    /// What the invariant of a branch says of one of its children.
    pub proof fn lemma_child(self, position: int)
        requires
            3 <= CAPACITY,
            self.inv(),
            0 <= position <= self.rightward@.len(),
        ensures
            self.child(position).inv(),
            !self.child(position).underfull(),
            self.child(position).height() == self.leftmost.height(),
            self.child(position).entries().len() > 0,
            position > 0 ==> self.rightward@[position - 1].lower_bound@ == self.child(
                position,
            ).entries()[0].0,
    {
        if position == 0 {
            self.leftmost.lemma_nonempty();
        } else {
            assert(Node::<K, V, CAPACITY>::edge_ok(
                self.rightward@[position - 1],
                self.leftmost.height(),
            ));
        }
    }

    /// The entry at the start of a child is that child's minimum.
    pub proof fn lemma_child_first(self, position: int)
        requires
            3 <= CAPACITY,
            self.inv(),
            0 <= position <= self.rightward@.len(),
        ensures
            self.before(position).len() < self.entries().len(),
            self.entries()[self.before(position).len() as int] == self.child(position).entries()[0],
    {
        self.lemma_child(position);
        self.lemma_split_at(position);
        let b = self.before(position);
        let c = self.child(position).entries();
        assert(self.entries()[b.len() as int] == (b + c + self.after(position))[b.len() as int]);
    }

    pub proof fn lemma_before_len_increasing(self, low: int, high: int)
        requires
            3 <= CAPACITY,
            self.inv(),
            0 <= low < high <= self.rightward@.len(),
        ensures
            self.before(low).len() < self.before(high).len(),
        decreases high - low,
    {
        self.lemma_before_step(high - 1);
        self.lemma_child(high - 1);
        if low < high - 1 {
            self.lemma_before_len_increasing(low, high - 1);
        }
    }

    /// Separators strictly increase from left to right.
    pub proof fn lemma_separators_increasing(self)
        requires
            3 <= CAPACITY,
            self.inv(),
        ensures
            forall|i: int, j: int|
                #![trigger self.rightward@[i], self.rightward@[j]]
                0 <= i < j < self.rightward@.len() ==> K::less(
                    self.rightward@[i].lower_bound@,
                    self.rightward@[j].lower_bound@,
                ),
    {
        assert forall|i: int, j: int|
            #![trigger self.rightward@[i], self.rightward@[j]]
            0 <= i < j < self.rightward@.len() implies K::less(
            self.rightward@[i].lower_bound@,
            self.rightward@[j].lower_bound@,
        ) by {
            self.lemma_child(i + 1);
            self.lemma_child(j + 1);
            self.lemma_child_first(i + 1);
            self.lemma_child_first(j + 1);
            self.lemma_before_len_increasing(i + 1, j + 1);
            let e = self.entries();
            let a = self.before(i + 1).len() as int;
            let b = self.before(j + 1).len() as int;
            assert(K::less(e[a].0, e[b].0));
        }
    }

    /// Routing: the entries before the child at `position` sort before any key
    /// that is not below that child's separator, and the entries after it sort
    /// after any key below the next separator.
    pub proof fn lemma_route(self, position: int, key: K::V)
        requires
            3 <= CAPACITY,
            self.inv(),
            0 <= position <= self.rightward@.len(),
            position > 0 ==> !K::less(key, self.rightward@[position - 1].lower_bound@),
            position < self.rightward@.len() ==> K::less(key, self.rightward@[position].lower_bound@),
        ensures
            all_below::<K, V>(self.before(position), key),
            all_above::<K, V>(self.after(position), key),
    {
        self.lemma_split_at(position);
        let b = self.before(position);
        let c = self.child(position).entries();
        let a = self.after(position);
        lemma_sorted_concat::<K, V>(b + c, a);
        lemma_sorted_concat::<K, V>(b, c);
        self.lemma_child(position);
        if position > 0 {
            let sep = self.rightward@[position - 1].lower_bound@;
            K::lemma_less_total(key, sep);
            assert forall|i: int| 0 <= i < b.len() implies K::less(#[trigger] b[i].0, key) by {
                assert(K::less(b[i].0, c[0].0));
            }
        }
        if position < self.rightward@.len() {
            let edges = self.rightward@.skip(position);
            lemma_edges_entries_split(edges, 1);
            let first = edges[0];
            assert(Node::<K, V, CAPACITY>::edges_entries(edges, 1) =~= first.child.entries()) by {
                assert(Node::<K, V, CAPACITY>::edges_entries(edges, 0) =~= Seq::empty());
            }
            self.lemma_child(position + 1);
            assert(first == self.rightward@[position]);
            assert(a[0] == first.child.entries()[0]);
            assert forall|i: int| 0 <= i < a.len() implies K::less(key, #[trigger] a[i].0) by {
                if i > 0 {
                    assert(K::less(a[0].0, a[i].0));
                }
            }
        } else {
            assert(self.rightward@.skip(position) =~= Seq::empty());
            assert(Node::<K, V, CAPACITY>::edges_entries(Seq::empty(), 0) =~= Seq::empty());
        }
    }
}


// ---------------------------------------------------------------------------
// Operation results
// ---------------------------------------------------------------------------

/// Result of inserting into a subtree.
#[derive(Debug, PartialEq, Eq)]
pub enum InsertResult<K, V, const CAPACITY: usize> {
    Inserted,
    Replaced { previous: V },
    InsertedAndSplit { separator: K, right: Box<Node<K, V, CAPACITY>> },
}

/// Result of removing from a subtree.
#[derive(Debug, PartialEq, Eq)]
pub enum RemoveResult<K, V> {
    Missing,
    Removed { value: V, occupancy: OccupancyChange<K> },
}

/// Occupancy and minimum-key change after removal.
#[derive(Debug, PartialEq, Eq)]
pub enum OccupancyChange<K> {
    Stable { minimum: MinimumChange<K> },
    Underflow { minimum: MinimumChange<K> },
}

/// Change to a subtree's minimum key.
#[derive(Debug, PartialEq, Eq)]
pub enum MinimumChange<K> {
    Unchanged,
    Changed(K),
    Removed,
}

/// Leaf- or branch-local removal before occupancy is classified.
pub enum Removal<V> {
    Missing,
    Removed(V),
}

/// The node capacity admits the occupancy rules: at least three, and one
/// overflow slot representable.
pub open spec fn capacity_ok<const CAPACITY: usize>() -> bool {
    3 <= CAPACITY && CAPACITY < usize::MAX
}

/// Some entry of the sequence has the key and the value.
pub open spec fn has_entry<K: OrderedKey, V>(s: Seq<(K::V, V)>, key: K::V, value: V) -> bool {
    exists|i: int| 0 <= i < s.len() && #[trigger] s[i] == (key, value)
}

/// `change` reports how the first key of `new` differs from that of `old`.
pub open spec fn minimum_change_matches<K: OrderedKey, V>(
    old: Seq<(K::V, V)>,
    new: Seq<(K::V, V)>,
    change: MinimumChange<K>,
) -> bool {
    match change {
        MinimumChange::Unchanged => (old.len() == 0 && new.len() == 0) || (old.len() > 0
            && new.len() > 0 && old[0].0 == new[0].0),
        MinimumChange::Changed(key) => new.len() > 0 && key@ == new[0].0 && (old.len() == 0
            || old[0].0 != new[0].0),
        MinimumChange::Removed => old.len() > 0 && new.len() == 0,
    }
}

impl<K: OrderedKey, V, const CAPACITY: usize> Node<K, V, CAPACITY> {
    /// What an insertion of `(key, value)` into `old`, leaving `new`, reports.
    pub open spec fn insert_post(
        old: Self,
        new: Self,
        key: K::V,
        value: V,
        result: InsertResult<K, V, CAPACITY>,
    ) -> bool {
        &&& new.inv()
        &&& new.height() == old.height()
        &&& match result {
            InsertResult::Inserted => {
                &&& exists|i: int| inserted_at::<K, V>(old.entries(), new.entries(), key, value, i)
                &&& old.size() <= new.size()
            },
            InsertResult::Replaced { previous } => {
                &&& exists|i: int|
                    replaced_at::<K, V>(old.entries(), new.entries(), key, value, i)
                        && previous == old.entries()[i].1
                &&& new.size() == old.size()
            },
            InsertResult::InsertedAndSplit { separator, right } => {
                &&& exists|i: int|
                    inserted_at::<K, V>(old.entries(), new.entries() + right.entries(), key, value, i)
                &&& !new.underfull()
                &&& right.inv()
                &&& !right.underfull()
                &&& right.height() == old.height()
                &&& new.entries().len() > 0
                &&& right.entries().len() > 0
                &&& separator@ == right.entries()[0].0
                &&& right.size() == CAPACITY + 1 - (CAPACITY + 1) / 2
                &&& new.size() + right.size() == new.max_size() + 1
            },
        }
    }

    /// What a removal of `key` from `old`, leaving `new`, reports.
    pub open spec fn remove_post(old: Self, new: Self, key: K::V, result: RemoveResult<K, V>) -> bool {
        &&& new.inv()
        &&& new.height() == old.height()
        &&& match result {
            RemoveResult::Missing => {
                &&& absent::<K, V>(old.entries(), key)
                &&& new.entries() == old.entries()
                &&& new.size() == old.size()
                &&& old.same_tree(new)
            },
            RemoveResult::Removed { value, occupancy } => {
                &&& exists|i: int|
                    removed_at::<K, V>(old.entries(), new.entries(), key, i) && value
                        == old.entries()[i].1
                &&& old matches Node::Branch(before) ==> new matches Node::Branch(after)
                    && BranchNode::removal_shape(before, after, key)
                &&& old.size() <= new.size() + 1
                &&& new.size() <= old.size()
                &&& match occupancy {
                    OccupancyChange::Stable { minimum } => !new.underfull()
                        && minimum_change_matches::<K, V>(old.entries(), new.entries(), minimum),
                    OccupancyChange::Underflow { minimum } => new.underfull()
                        && minimum_change_matches::<K, V>(old.entries(), new.entries(), minimum),
                }
            },
        }
    }
}

/// Allocated capacity of a vector, by `Vec::capacity`; the contract claims only
/// that it covers the length.
#[verifier::external_body]
fn vec_capacity<T>(vec: &Vec<T>) -> (capacity: usize)
    ensures
        capacity >= vec@.len(),
{
    vec.capacity()
}

/// Grows a vector's buffer by `Vec::reserve_exact`; the contract claims only
/// that the contents stay as they were, as vstd claims of `Vec::reserve`. The
/// new capacity depends on the allocator and is left unsaid, and so is the
/// panic that std documents when the requested capacity overflows.
#[verifier::external_body]
fn vec_reserve_exact<T>(vec: &mut Vec<T>, additional: usize)
    ensures
        final(vec)@ == old(vec)@,
{
    vec.reserve_exact(additional);
}

/// The sum of a run of capacities.
pub open spec fn capacity_sum(capacities: Seq<usize>) -> int
    decreases capacities.len(),
{
    if capacities.len() == 0 {
        0
    } else {
        capacity_sum(capacities.drop_last()) + capacities.last()
    }
}

/// A count capped at `usize::MAX`.
pub open spec fn saturated(count: int) -> int {
    if count > usize::MAX {
        usize::MAX as int
    } else {
        count
    }
}

/// Adds up capacities, stopping at `usize::MAX`.
pub fn saturating_total(capacities: &Vec<usize>) -> (total: usize)
    ensures
        total == saturated(capacity_sum(capacities@)),
{
    let mut total: usize = 0;
    let mut index: usize = 0;
    proof {
        assert(capacities@.take(0) =~= Seq::<usize>::empty());
    }
    while index < capacities.len()
        invariant
            index <= capacities@.len(),
            total == saturated(capacity_sum(capacities@.take(index as int))),
        decreases capacities@.len() - index,
    {
        let ghost before_sum = capacity_sum(capacities@.take(index as int));
        proof {
            assert(capacities@.take(index + 1).drop_last() =~= capacities@.take(index as int));
            assert(capacities@.take(index + 1).last() == capacities@[index as int]);
            assert(capacity_sum(capacities@.take(index + 1)) == before_sum + capacities@[index as int]);
        }
        let next = capacities[index];
        total = if total > usize::MAX - next {
            usize::MAX
        } else {
            total + next
        };
        index = index + 1;
    }
    proof {
        assert(capacities@.take(capacities@.len() as int) =~= capacities@);
    }
    total
}

// ---------------------------------------------------------------------------
// Entries and leaves
// ---------------------------------------------------------------------------

impl<K, V> Entry<K, V> {
    pub fn new(key: K, value: V) -> (entry: Self)
        ensures
            entry.key == key,
            entry.value == value,
    {
        Self { key, value }
    }

    pub fn key(&self) -> (key: &K)
        ensures
            *key == self.key,
    {
        &self.key
    }

    pub fn value(&self) -> (value: &V)
        ensures
            *value == self.value,
    {
        &self.value
    }

    pub fn value_mut(&mut self) -> (value: &mut V)
        ensures
            *value == old(self).value,
            final(self).key == old(self).key,
            final(self).value == *final(value),
    {
        &mut self.value
    }

    pub fn as_pair(&self) -> (pair: (&K, &V))
        ensures
            *pair.0 == self.key,
            *pair.1 == self.value,
    {
        (&self.key, &self.value)
    }

    pub fn into_pair(self) -> (pair: (K, V))
        ensures
            pair.0 == self.key,
            pair.1 == self.value,
    {
        (self.key, self.value)
    }
}

impl EntryIndex {
    pub fn new(index: usize) -> (entry_index: Self)
        ensures
            entry_index.0 == index,
    {
        Self(index)
    }

    pub fn get(self) -> (index: usize)
        ensures
            index == self.0,
    {
        self.0
    }
}

impl SearchSlot {
    /// An occupied slot at the given position.
    pub fn occupied(index: usize) -> (slot: Self)
        ensures
            slot == SearchSlot::Occupied(EntryIndex(index)),
    {
        Self::Occupied(EntryIndex::new(index))
    }

    /// A vacant slot at the given position.
    pub fn vacant(index: usize) -> (slot: Self)
        ensures
            slot == SearchSlot::Vacant(EntryIndex(index)),
    {
        Self::Vacant(EntryIndex::new(index))
    }
}

/// The pairs of key views and values held by a sequence of owned pairs.
pub open spec fn owned_pairs<K: View, V>(pairs: Seq<(K, V)>) -> Seq<(K::V, V)> {
    pairs.map_values(|pair: (K, V)| (pair.0@, pair.1))
}

impl<K: OrderedKey, V, const CAPACITY: usize> LeafNode<K, V, CAPACITY> {
    pub open spec fn pairs(self) -> Seq<(K::V, V)> {
        entry_pairs(self.entries@)
    }

    /// Creates a leaf without allocating an entry buffer.
    pub fn empty() -> (leaf: Self)
        ensures
            leaf.entries@.len() == 0,
    {
        Self { entries: Vec::new() }
    }

    /// Returns the first entry, if present.
    pub fn first_key_value(&self) -> (pair: Option<(&K, &V)>)
        ensures
            match pair {
                None => self.entries@.len() == 0,
                Some((key, value)) => self.entries@.len() > 0 && key@ == self.pairs()[0].0
                    && *value == self.pairs()[0].1,
            },
    {
        if self.entries.len() == 0 {
            None
        } else {
            Some(self.entries[0].as_pair())
        }
    }

    /// Returns the last entry, if present.
    pub fn last_key_value(&self) -> (pair: Option<(&K, &V)>)
        ensures
            match pair {
                None => self.entries@.len() == 0,
                Some((key, value)) => self.entries@.len() > 0 && key@ == self.pairs().last().0
                    && *value == self.pairs().last().1,
            },
    {
        let count = self.entries.len();
        if count == 0 {
            None
        } else {
            Some(self.entries[count - 1].as_pair())
        }
    }

    /// Moves the entries, in order, to the end of a buffer of pairs.
    pub fn append_owned_entries(self, entries: &mut Vec<(K, V)>)
        ensures
            owned_pairs(final(entries)@) == owned_pairs(old(entries)@) + self.pairs(),
    {
        let mut source = self.entries;
        let ghost start = owned_pairs(entries@);
        let ghost all = entry_pairs(source@);
        let mut taken: usize = 0;
        let total = source.len();
        // Move the entries out from the back, then restore their order.
        let mut reversed: Vec<(K, V)> = Vec::new();
        while source.len() > 0
            invariant
                source@.len() + reversed@.len() == total,
                total == all.len(),
                entry_pairs(source@) == all.take(source@.len() as int),
                forall|i: int|
                    0 <= i < reversed@.len() ==> (#[trigger] reversed@[i]).0@ == all[total - 1
                        - i].0 && reversed@[i].1 == all[total - 1 - i].1,
            decreases source@.len(),
        {
            let ghost before = source@;
            let entry = source.pop().unwrap();
            proof {
                assert(entry_pairs(before)[before.len() - 1] == (entry.key@, entry.value));
                assert(all.take(before.len() as int)[before.len() - 1] == all[before.len() - 1]);
                assert(entry_pairs(source@) =~= all.take(source@.len() as int));
            }
            reversed.push(entry.into_pair());
        }
        let ghost middle = owned_pairs(entries@);
        while reversed.len() > 0
            invariant
                reversed@.len() + taken == total,
                total == all.len(),
                forall|i: int|
                    0 <= i < reversed@.len() ==> (#[trigger] reversed@[i]).0@ == all[total - 1
                        - i].0 && reversed@[i].1 == all[total - 1 - i].1,
                owned_pairs(entries@) == start + all.take(taken as int),
            decreases reversed@.len(),
        {
            let ghost last = reversed@.len() - 1;
            let pair = reversed.pop().unwrap();
            let ghost previous = entries@;
            entries.push(pair);
            proof {
                assert(pair.0@ == all[taken as int].0 && pair.1 == all[taken as int].1);
                assert(owned_pairs(entries@) =~= owned_pairs(previous).push((pair.0@, pair.1)));
            }
            taken = taken + 1;
            proof {
                assert(owned_pairs(entries@) =~= start + all.take(taken as int));
            }
        }
        proof {
            assert(all.take(total as int) =~= all);
        }
    }

    /// Returns the entry at a cursor position.
    pub fn entry_at(&self, index: usize) -> (pair: Option<(&K, &V)>)
        ensures
            match pair {
                None => index >= self.entries@.len(),
                Some((key, value)) => index < self.entries@.len() && key@ == self.pairs()[index as int].0
                    && *value == self.pairs()[index as int].1,
            },
    {
        if index < self.entries.len() {
            Some(self.entries[index].as_pair())
        } else {
            None
        }
    }

    /// Returns the number of entries available to a cursor.
    pub fn entry_count(&self) -> (count: usize)
        ensures
            count == self.entries@.len(),
    {
        self.entries.len()
    }

    /// Locates an occupied entry or its insertion position.
    pub fn search(&self, key: &K) -> (slot: SearchSlot)
        requires
            sorted::<K, V>(self.pairs()),
        ensures
            match slot {
                SearchSlot::Occupied(index) => index.0 < self.entries@.len() && self.pairs()[index.0 as int].0
                    == key@,
                SearchSlot::Vacant(index) => {
                    &&& index.0 <= self.entries@.len()
                    &&& forall|j: int|
                        #![trigger self.pairs()[j]]
                        0 <= j < index.0 ==> K::less(self.pairs()[j].0, key@)
                    &&& forall|j: int|
                        #![trigger self.pairs()[j]]
                        index.0 <= j < self.entries@.len() ==> K::less(key@, self.pairs()[j].0)
                },
            },
    {
        let ghost pairs = self.pairs();
        let mut low: usize = 0;
        let mut high: usize = self.entries.len();
        while low < high
            invariant
                pairs == self.pairs(),
                sorted::<K, V>(pairs),
                0 <= low <= high <= self.entries@.len(),
                forall|j: int| #![trigger pairs[j]] 0 <= j < low ==> K::less(pairs[j].0, key@),
                forall|j: int|
                    #![trigger pairs[j]]
                    high <= j < self.entries@.len() ==> K::less(key@, pairs[j].0),
            decreases high - low,
        {
            let middle = low + (high - low) / 2;
            assert(pairs[middle as int].0 == self.entries@[middle as int].key@);
            match self.entries[middle].key().compare(key) {
                KeyOrder::Less => {
                    assert forall|j: int| #![trigger pairs[j]] 0 <= j < middle + 1 implies K::less(
                        pairs[j].0,
                        key@,
                    ) by {
                        if j < middle {
                            assert(K::less(pairs[j].0, pairs[middle as int].0));
                        }
                    }
                    low = middle + 1;
                },
                KeyOrder::Equal => {
                    return SearchSlot::Occupied(EntryIndex::new(middle));
                },
                KeyOrder::Greater => {
                    assert forall|j: int|
                        #![trigger pairs[j]]
                        middle <= j < self.entries@.len() implies K::less(key@, pairs[j].0) by {
                        if j > middle {
                            assert(K::less(pairs[middle as int].0, pairs[j].0));
                        }
                    }
                    high = middle;
                },
            }
        }
        SearchSlot::Vacant(EntryIndex::new(low))
    }
}


impl<K: OrderedKey, V, const CAPACITY: usize> LeafNode<K, V, CAPACITY> {
    pub fn get(&self, key: &K) -> (value: Option<&V>)
        requires
            sorted::<K, V>(self.pairs()),
        ensures
            match value {
                Some(value) => has_entry::<K, V>(self.pairs(), key@, *value),
                None => absent::<K, V>(self.pairs(), key@),
            },
    {
        match self.search(key) {
            SearchSlot::Occupied(index) => {
                let value = self.entries[index.get()].value();
                assert(self.pairs()[index.0 as int] == (key@, *value));
                Some(value)
            },
            SearchSlot::Vacant(_insertion_index) => None,
        }
    }

    pub fn get_mut(&mut self, key: &K) -> (value: Option<&mut V>)
        requires
            sorted::<K, V>(old(self).pairs()),
        ensures
            match value {
                Some(value) => exists|i: int|
                    0 <= i < old(self).pairs().len() && old(self).pairs()[i] == (key@, *value)
                        && final(self).pairs() == old(self).pairs().update(i, (key@, *final(value))),
                None => absent::<K, V>(old(self).pairs(), key@) && *final(self) == *old(self),
            },
    {
        match self.search(key) {
            SearchSlot::Occupied(index) => {
                let value = self.entries[index.get()].value_mut();
                Some(value)
            },
            SearchSlot::Vacant(_insertion_index) => None,
        }
    }

    /// Inserts an entry, reporting replacement or structural growth.
    pub fn insert(&mut self, key: K, value: V) -> (result: InsertResult<K, V, CAPACITY>)
        requires
            capacity_ok::<CAPACITY>(),
            Node::Leaf(*old(self)).inv(),
        ensures
            Node::insert_post(Node::Leaf(*old(self)), Node::Leaf(*final(self)), key@, value, result),
    {
        match self.search(&key) {
            SearchSlot::Occupied(index) => self.replace_value(index, key, value),
            SearchSlot::Vacant(index) => self.insert_new(index, key, value),
        }
    }

    fn replace_value(&mut self, index: EntryIndex, key: K, value: V) -> (result: InsertResult<K, V, CAPACITY>)
        requires
            capacity_ok::<CAPACITY>(),
            Node::Leaf(*old(self)).inv(),
            index.0 < old(self).entries@.len(),
            old(self).pairs()[index.0 as int].0 == key@,
        ensures
            Node::insert_post(Node::Leaf(*old(self)), Node::Leaf(*final(self)), key@, value, result),
            result is Replaced,
    {
        let ghost old_pairs = self.pairs();
        let ghost i = index.0 as int;
        let mut previous = value;
        std::mem::swap(self.entries[index.get()].value_mut(), &mut previous);
        proof {
            assert(self.pairs() =~= old_pairs.update(i, (key@, value)));
            assert(replaced_at::<K, V>(old_pairs, self.pairs(), key@, value, i));
            lemma_sorted_update_value::<K, V>(old_pairs, self.pairs(), key@, value, i);
            assert(previous == old_pairs[i].1);
            assert(Node::<K, V, CAPACITY>::Leaf(*self).entries() == self.pairs());
            assert(Node::<K, V, CAPACITY>::Leaf(*old(self)).entries() == old_pairs);
            assert(Node::<K, V, CAPACITY>::Leaf(*self).inv());
        }
        InsertResult::Replaced { previous }
    }

    fn insert_new(&mut self, index: EntryIndex, key: K, value: V) -> (result: InsertResult<K, V, CAPACITY>)
        requires
            capacity_ok::<CAPACITY>(),
            Node::Leaf(*old(self)).inv(),
            index.0 <= old(self).entries@.len(),
            forall|j: int|
                #![trigger old(self).pairs()[j]]
                0 <= j < index.0 ==> K::less(old(self).pairs()[j].0, key@),
            forall|j: int|
                #![trigger old(self).pairs()[j]]
                index.0 <= j < old(self).entries@.len() ==> K::less(key@, old(self).pairs()[j].0),
        ensures
            Node::insert_post(Node::Leaf(*old(self)), Node::Leaf(*final(self)), key@, value, result),
            !(result is Replaced),
    {
        let ghost old_pairs = self.pairs();
        let ghost i = index.0 as int;
        self.reserve_overflow_capacity();
        let ghost key_view = key@;
        self.entries.insert(index.get(), Entry::new(key, value));
        let ghost new_pairs = self.pairs();
        proof {
            assert(new_pairs =~= old_pairs.insert(i, (key_view, value)));
            assert(inserted_at::<K, V>(old_pairs, new_pairs, key_view, value, i));
            lemma_sorted_insert::<K, V>(old_pairs, new_pairs, key_view, value, i);
        }
        if self.entries.len() <= CAPACITY {
            InsertResult::Inserted
        } else {
            self.split()
        }
    }

    fn reserve_overflow_capacity(&mut self)
        ensures
            final(self).entries@ == old(self).entries@,
    {
        let overflow_capacity = CAPACITY.saturating_add(1);
        let additional = overflow_capacity.saturating_sub(self.entries.len());
        vec_reserve_exact(&mut self.entries, additional);
    }

    /// Splits an overflowing leaf, keeping the lower half.
    fn split(&mut self) -> (result: InsertResult<K, V, CAPACITY>)
        requires
            capacity_ok::<CAPACITY>(),
            old(self).entries@.len() == CAPACITY + 1,
            sorted::<K, V>(old(self).pairs()),
        ensures
            match result {
                InsertResult::InsertedAndSplit { separator, right } => {
                    &&& final(self).pairs() + right.entries() == old(self).pairs()
                    &&& Node::Leaf(*final(self)).inv()
                    &&& !Node::Leaf(*final(self)).underfull()
                    &&& right.inv()
                    &&& !right.underfull()
                    &&& right.height() == 0
                    &&& final(self).pairs().len() > 0
                    &&& right.entries().len() > 0
                    &&& separator@ == right.entries()[0].0
                    &&& final(self).entries@ == old(self).entries@.take((CAPACITY + 1) / 2)
                    &&& *right matches Node::Leaf(right_leaf) && right_leaf.entries@ == old(
                        self,
                    ).entries@.skip((CAPACITY + 1) / 2)
                },
                _ => false,
            },
    {
        let ghost all = self.pairs();
        let split_index = CAPACITY.saturating_add(1) / 2;
        let separator = self.entries[split_index].key().duplicate();
        let mut right_entries = self.entries.split_off(split_index);
        let additional = CAPACITY.saturating_add(1).saturating_sub(right_entries.len());
        vec_reserve_exact(&mut right_entries, additional);
        let right = Box::new(Node::Leaf(Self { entries: right_entries }));
        proof {
            let left_pairs = self.pairs();
            let right_pairs = right.entries();
            assert(left_pairs =~= all.take(split_index as int));
            assert(right_pairs =~= all.skip(split_index as int));
            assert(all =~= left_pairs + right_pairs);
            lemma_sorted_concat::<K, V>(left_pairs, right_pairs);
            assert(right_pairs[0] == all[split_index as int]);
        }
        InsertResult::InsertedAndSplit { separator, right }
    }

    pub fn remove(&mut self, key: &K) -> (removal: Removal<V>)
        requires
            sorted::<K, V>(old(self).pairs()),
        ensures
            match removal {
                Removal::Missing => absent::<K, V>(old(self).pairs(), key@) && *final(self) == *old(self),
                Removal::Removed(value) => exists|i: int|
                    removed_at::<K, V>(old(self).pairs(), final(self).pairs(), key@, i) && value
                        == old(self).pairs()[i].1,
            },
    {
        match self.search(key) {
            SearchSlot::Occupied(index) => {
                let ghost old_pairs = self.pairs();
                let ghost i = index.0 as int;
                let Entry { value, .. } = self.entries.remove(index.get());
                proof {
                    assert(self.pairs() =~= old_pairs.remove(i));
                    assert(removed_at::<K, V>(old_pairs, self.pairs(), key@, i));
                }
                Removal::Removed(value)
            },
            SearchSlot::Vacant(_insertion_index) => Removal::Missing,
        }
    }

    /// Builds a leaf from entries given in increasing key order.
    pub fn from_sorted_entries(entries: Vec<(K, V)>) -> (leaf: Self)
        ensures
            leaf.pairs() == owned_pairs(entries@),
    {
        let ghost all = owned_pairs(entries@);
        let mut source = entries;
        let mut reversed: Vec<Entry<K, V>> = Vec::new();
        let total = source.len();
        while source.len() > 0
            invariant
                source@.len() + reversed@.len() == total,
                total == all.len(),
                owned_pairs(source@) == all.take(source@.len() as int),
                forall|i: int|
                    0 <= i < reversed@.len() ==> (#[trigger] reversed@[i]).key@ == all[total - 1
                        - i].0 && reversed@[i].value == all[total - 1 - i].1,
            decreases source@.len(),
        {
            let ghost before = source@;
            let (key, value) = source.pop().unwrap();
            proof {
                assert(owned_pairs(before)[before.len() - 1] == (key@, value));
                assert(all.take(before.len() as int)[before.len() - 1] == all[before.len() - 1]);
                assert(owned_pairs(source@) =~= all.take(source@.len() as int));
            }
            reversed.push(Entry::new(key, value));
        }
        let mut result: Vec<Entry<K, V>> = Vec::new();
        let mut taken: usize = 0;
        while reversed.len() > 0
            invariant
                reversed@.len() + taken == total,
                total == all.len(),
                forall|i: int|
                    0 <= i < reversed@.len() ==> (#[trigger] reversed@[i]).key@ == all[total - 1
                        - i].0 && reversed@[i].value == all[total - 1 - i].1,
                entry_pairs(result@) == all.take(taken as int),
            decreases reversed@.len(),
        {
            let entry = reversed.pop().unwrap();
            let ghost previous = result@;
            result.push(entry);
            proof {
                assert(entry_pairs(result@) =~= entry_pairs(previous).push((entry.key@, entry.value)));
            }
            taken = taken + 1;
            proof {
                assert(entry_pairs(result@) =~= all.take(taken as int));
            }
        }
        proof {
            assert(all.take(total as int) =~= all);
        }
        Self { entries: result }
    }

    pub fn is_empty(&self) -> (empty: bool)
        ensures
            empty == (self.entries@.len() == 0),
    {
        self.entries.is_empty()
    }

    pub fn allocated_entry_capacity(&self) -> (capacity: usize)
        ensures
            capacity >= self.entries@.len(),
    {
        vec_capacity(&self.entries)
    }
}


// ---------------------------------------------------------------------------
// Branch routing
// ---------------------------------------------------------------------------

/// Ordered child location selected by branch routing.
#[derive(Clone, Copy)]
pub struct ChildIndex(pub usize);

impl ChildIndex {
    pub fn new(index: usize) -> (child_index: Self)
        ensures
            child_index.0 == index,
    {
        Self(index)
    }

    pub fn get(self) -> (index: usize)
        ensures
            index == self.0,
    {
        self.0
    }
}

/// In a sequence split around a middle part, an entry for `key` can only be in
/// the middle part when the left part sorts before `key` and the right part after.
pub proof fn lemma_lookup_middle<K: OrderedKey, V>(
    left: Seq<(K::V, V)>,
    middle: Seq<(K::V, V)>,
    right: Seq<(K::V, V)>,
    key: K::V,
)
    requires
        all_below::<K, V>(left, key),
        all_above::<K, V>(right, key),
    ensures
        absent::<K, V>(left + middle + right, key) <==> absent::<K, V>(middle, key),
        forall|value: V|
            has_entry::<K, V>(left + middle + right, key, value) <==> #[trigger] has_entry::<K, V>(
                middle,
                key,
                value,
            ),
{
    let s = left + middle + right;
    assert forall|i: int| 0 <= i < s.len() && #[trigger] s[i].0 == key implies left.len() <= i < left.len()
        + middle.len() && s[i] == middle[i - left.len()] by {
        if i < left.len() {
            assert(s[i] == left[i]);
            assert(K::less(left[i].0, key));
        } else if i >= left.len() + middle.len() {
            assert(s[i] == right[i - left.len() - middle.len()]);
            assert(K::less(key, right[i - left.len() - middle.len()].0));
        }
    }
    assert forall|value: V| has_entry::<K, V>(s, key, value) <==> #[trigger] has_entry::<K, V>(
        middle,
        key,
        value,
    ) by {
        if has_entry::<K, V>(middle, key, value) {
            let j = choose|j: int| 0 <= j < middle.len() && #[trigger] middle[j] == (key, value);
            assert(s[left.len() + j] == middle[j]);
        }
    }
    if absent::<K, V>(middle, key) {
        assert forall|i: int| 0 <= i < s.len() implies #[trigger] s[i].0 != key by {
            if s[i].0 == key {
                assert(middle[i - left.len()].0 == key);
            }
        }
    }
    if absent::<K, V>(s, key) {
        assert forall|i: int| 0 <= i < middle.len() implies #[trigger] middle[i].0 != key by {
            assert(s[left.len() + i] == middle[i]);
        }
    }
}

impl<K, V, const CAPACITY: usize> BranchEdge<K, V, CAPACITY> {
    pub fn new(lower_bound: K, child: Box<Node<K, V, CAPACITY>>) -> (edge: Self)
        ensures
            edge.lower_bound == lower_bound,
            edge.child == child,
    {
        Self { lower_bound, child }
    }

    pub fn from_node(lower_bound: K, child: Node<K, V, CAPACITY>) -> (edge: Self)
        ensures
            edge.lower_bound == lower_bound,
            *edge.child == child,
    {
        Self::new(lower_bound, Box::new(child))
    }
}

impl<K: OrderedKey, V, const CAPACITY: usize> BranchNode<K, V, CAPACITY> {
    /// The child at `position` is where `key` belongs.
    pub open spec fn routes_to(self, position: int, key: K::V) -> bool {
        &&& 0 <= position <= self.rightward@.len()
        &&& position > 0 ==> !K::less(key, self.rightward@[position - 1].lower_bound@)
        &&& position < self.rightward@.len() ==> K::less(key, self.rightward@[position].lower_bound@)
    }

    /// The branch after its child at `position` became `child`.
    pub open spec fn child_replaced(old: Self, new: Self, position: int, child: Node<K, V, CAPACITY>) -> bool {
        &&& 0 <= position <= old.rightward@.len()
        &&& position == 0 ==> *new.leftmost == child && new.rightward@ == old.rightward@
        &&& position > 0 ==> new.leftmost == old.leftmost && new.rightward@ == old.rightward@.update(
            position - 1,
            BranchEdge { lower_bound: old.rightward@[position - 1].lower_bound, child: Box::new(child) },
        )
    }

    /// Creates a branch root from a split node.
    pub fn from_root_split(
        leftmost: Node<K, V, CAPACITY>,
        lower_bound: K,
        right: Box<Node<K, V, CAPACITY>>,
    ) -> (branch: Self)
        ensures
            *branch.leftmost == leftmost,
            branch.rightward@ == seq![BranchEdge { lower_bound, child: right }],
    {
        let mut rightward = Vec::with_capacity(CAPACITY.saturating_add(1));
        rightward.push(BranchEdge::new(lower_bound, right));
        Self { leftmost: Box::new(leftmost), rightward }
    }

    pub fn edge_count(&self) -> (count: usize)
        ensures
            count == self.rightward@.len(),
    {
        self.rightward.len()
    }

    /// Returns the number of child subtrees available to a cursor.
    pub fn child_count(&self) -> (count: usize)
        ensures
            self.rightward@.len() < usize::MAX ==> count == self.rightward@.len() + 1,
    {
        self.edge_count().saturating_add(1)
    }

    fn rightmost_child(&self) -> (child: &Node<K, V, CAPACITY>)
        ensures
            *child == self.child(self.rightward@.len() as int),
    {
        let count = self.rightward.len();
        if count == 0 {
            &self.leftmost
        } else {
            &self.rightward[count - 1].child
        }
    }

    /// Locates the child for a key: the number of separators not above it.
    fn child_position(&self, key: &K) -> (position: ChildIndex)
        requires
            capacity_ok::<CAPACITY>(),
            self.inv(),
        ensures
            self.routes_to(position.0 as int, key@),
    {
        proof {
            self.lemma_separators_increasing();
        }
        let mut low: usize = 0;
        let mut high: usize = self.rightward.len();
        while low < high
            invariant
                capacity_ok::<CAPACITY>(),
                self.inv(),
                0 <= low <= high <= self.rightward@.len(),
                forall|i: int, j: int|
                    #![trigger self.rightward@[i], self.rightward@[j]]
                    0 <= i < j < self.rightward@.len() ==> K::less(
                        self.rightward@[i].lower_bound@,
                        self.rightward@[j].lower_bound@,
                    ),
                forall|j: int|
                    0 <= j < low ==> !K::less(key@, (#[trigger] self.rightward@[j]).lower_bound@),
                forall|j: int|
                    high <= j < self.rightward@.len() ==> K::less(
                        key@,
                        (#[trigger] self.rightward@[j]).lower_bound@,
                    ),
            decreases high - low,
        {
            let middle = low + (high - low) / 2;
            match self.rightward[middle].lower_bound.compare(key) {
                KeyOrder::Greater => {
                    assert forall|j: int| middle <= j < self.rightward@.len() implies K::less(
                        key@,
                        (#[trigger] self.rightward@[j]).lower_bound@,
                    ) by {
                        if j > middle {
                            assert(K::less(
                                self.rightward@[middle as int].lower_bound@,
                                self.rightward@[j].lower_bound@,
                            ));
                        }
                    }
                    high = middle;
                },
                _ => {
                    assert forall|j: int| 0 <= j < middle + 1 implies !K::less(
                        key@,
                        (#[trigger] self.rightward@[j]).lower_bound@,
                    ) by {
                        if j < middle {
                            assert(K::less(
                                self.rightward@[j].lower_bound@,
                                self.rightward@[middle as int].lower_bound@,
                            ));
                            if K::less(key@, self.rightward@[j].lower_bound@) {
                                assert(K::less(key@, self.rightward@[middle as int].lower_bound@));
                            }
                        }
                    }
                    low = middle + 1;
                },
            }
        }
        ChildIndex::new(low)
    }

    /// Returns the child index selected for a key.
    pub fn child_index_for_key(&self, key: &K) -> (index: usize)
        requires
            capacity_ok::<CAPACITY>(),
            self.inv(),
        ensures
            self.routes_to(index as int, key@),
    {
        self.child_position(key).get()
    }

    /// Returns the child at an ordered cursor position.
    pub fn child_at(&self, index: usize) -> (child: Option<&Node<K, V, CAPACITY>>)
        ensures
            match child {
                Some(child) => index <= self.rightward@.len() && *child == self.child(index as int),
                None => index > self.rightward@.len(),
            },
    {
        if index == 0 {
            Some(&self.leftmost)
        } else if index - 1 < self.rightward.len() {
            Some(&self.rightward[index - 1].child)
        } else {
            None
        }
    }

    pub fn child_for_key(&self, key: &K) -> (child: &Node<K, V, CAPACITY>)
        requires
            capacity_ok::<CAPACITY>(),
            self.inv(),
        ensures
            exists|position: int| self.routes_to(position, key@) && *child == self.child(position),
    {
        let position = self.child_position(key).get();
        let child: &Node<K, V, CAPACITY> = if position == 0 {
            &self.leftmost
        } else {
            &self.rightward[position - 1].child
        };
        assert(self.routes_to(position as int, key@) && *child == self.child(position as int));
        child
    }

    pub fn child_for_key_mut(&mut self, key: &K) -> (child: &mut Node<K, V, CAPACITY>)
        requires
            capacity_ok::<CAPACITY>(),
            old(self).inv(),
        ensures
            exists|position: int|
                old(self).routes_to(position, key@) && *child == old(self).child(position)
                    && Self::child_replaced(*old(self), *final(self), position, *final(child)),
    {
        let position = self.child_position(key);
        self.child_at_position_mut(position)
    }

    fn child_at_position_mut(&mut self, position: ChildIndex) -> (child: &mut Node<K, V, CAPACITY>)
        requires
            position.0 <= old(self).rightward@.len(),
        ensures
            *child == old(self).child(position.0 as int),
            Self::child_replaced(*old(self), *final(self), position.0 as int, *final(child)),
    {
        match position.get() {
            0 => &mut *self.leftmost,
            rightward => &mut *self.rightward[rightward - 1].child,
        }
    }
}


impl<K: OrderedKey, V, const CAPACITY: usize> BranchNode<K, V, CAPACITY> {
    /// After its child at `position` changes, a branch holds the same entries
    /// around that child.
    pub proof fn lemma_child_replaced_entries(
        old: Self,
        new: Self,
        position: int,
        child: Node<K, V, CAPACITY>,
    )
        requires
            Self::child_replaced(old, new, position, child),
        ensures
            new.child(position) == child,
            new.before(position) == old.before(position),
            new.after(position) == old.after(position),
            new.entries() == old.before(position) + child.entries() + old.after(position),
            new.rightward@.len() == old.rightward@.len(),
    {
        if position > 0 {
            lemma_edges_entries_same_children(new.rightward@, old.rightward@, (position - 1) as nat);
            assert(new.rightward@.skip(position) =~= old.rightward@.skip(position));
        }
        new.lemma_split_at(position);
    }

    /// After its child at `position` changes to a valid, half-full subtree of
    /// the same height that keeps its minimum, a branch whose entries stay
    /// sorted is valid.
    pub proof fn lemma_child_replaced_inv(old: Self, new: Self, position: int, child: Node<K, V, CAPACITY>)
        requires
            capacity_ok::<CAPACITY>(),
            old.inv(),
            Self::child_replaced(old, new, position, child),
            child.inv(),
            !child.underfull(),
            child.height() == old.leftmost.height(),
            position > 0 ==> child.entries().len() > 0 && child.entries()[0].0 == old.child(
                position,
            ).entries()[0].0,
            sorted::<K, V>(new.entries()),
        ensures
            new.inv(),
            new.height() == old.height(),
    {
        Self::lemma_child_replaced_entries(old, new, position, child);
        old.lemma_child(position);
        if position == 0 {
            assert forall|i: int| 0 <= i < new.rightward@.len() implies Node::<K, V, CAPACITY>::edge_ok(
                #[trigger] new.rightward@[i],
                new.leftmost.height(),
            ) by {
                assert(Node::<K, V, CAPACITY>::edge_ok(old.rightward@[i], old.leftmost.height()));
            }
        } else {
            assert forall|i: int| 0 <= i < new.rightward@.len() implies Node::<K, V, CAPACITY>::edge_ok(
                #[trigger] new.rightward@[i],
                new.leftmost.height(),
            ) by {
                assert(Node::<K, V, CAPACITY>::edge_ok(old.rightward@[i], old.leftmost.height()));
            }
        }
    }
}

impl<K: OrderedKey, V, const CAPACITY: usize> Node<K, V, CAPACITY> {
    /// Creates the canonical empty root node.
    pub fn empty_leaf() -> (node: Self)
        ensures
            node.entries().len() == 0,
            node is Leaf,
            node.size() == 0,
            capacity_ok::<CAPACITY>() ==> node.inv(),
    {
        Self::Leaf(LeafNode::empty())
    }

    /// Creates a branch root from a split node.
    pub fn from_root_split(left: Self, separator: K, right: Box<Self>) -> (node: Self)
        ensures
            node matches Node::Branch(branch) && *branch.leftmost == left && branch.rightward@ == seq![
                BranchEdge { lower_bound: separator, child: right },
            ],
    {
        Self::Branch(BranchNode::from_root_split(left, separator, right))
    }

    pub fn from_leaf(leaf: LeafNode<K, V, CAPACITY>) -> (node: Self)
        ensures
            node == Node::Leaf(leaf),
    {
        Self::Leaf(leaf)
    }

    pub fn from_branch(branch: BranchNode<K, V, CAPACITY>) -> (node: Self)
        ensures
            node == Node::Branch(branch),
    {
        Self::Branch(branch)
    }

    pub fn from_sorted_entries(entries: Vec<(K, V)>) -> (node: Self)
        ensures
            node is Leaf,
            node.entries() == owned_pairs(entries@),
    {
        Self::Leaf(LeafNode::from_sorted_entries(entries))
    }

    /// Returns the first leaf entry, if present.
    pub fn first_key_value(&self) -> (pair: Option<(&K, &V)>)
        requires
            capacity_ok::<CAPACITY>(),
            self.inv(),
        ensures
            match pair {
                None => self.entries().len() == 0,
                Some((key, value)) => self.entries().len() > 0 && (key@, *value) == self.entries()[0],
            },
        decreases self.height(), 1nat,
    {
        match self {
            Self::Leaf(leaf) => leaf.first_key_value(),
            Self::Branch(branch) => branch.first_key_value(),
        }
    }

    /// Returns the last leaf entry, if present.
    pub fn last_key_value(&self) -> (pair: Option<(&K, &V)>)
        requires
            capacity_ok::<CAPACITY>(),
            self.inv(),
        ensures
            match pair {
                None => self.entries().len() == 0,
                Some((key, value)) => self.entries().len() > 0 && (key@, *value) == self.entries().last(),
            },
        decreases self.height(), 1nat,
    {
        match self {
            Self::Leaf(leaf) => leaf.last_key_value(),
            Self::Branch(branch) => branch.last_key_value(),
        }
    }

    /// Finds a value by its key.
    pub fn get(&self, key: &K) -> (value: Option<&V>)
        requires
            capacity_ok::<CAPACITY>(),
            self.inv(),
        ensures
            match value {
                Some(value) => has_entry::<K, V>(self.entries(), key@, *value),
                None => absent::<K, V>(self.entries(), key@),
            },
        decreases self.height(),
    {
        match self {
            Self::Leaf(leaf) => leaf.get(key),
            Self::Branch(branch) => {
                let child = branch.child_for_key(key);
                proof {
                    let position = choose|position: int|
                        branch.routes_to(position, key@) && *child == branch.child(position);
                    branch.lemma_route(position, key@);
                    branch.lemma_split_at(position);
                    branch.lemma_child(position);
                    lemma_lookup_middle::<K, V>(
                        branch.before(position),
                        child.entries(),
                        branch.after(position),
                        key@,
                    );
                }
                child.get(key)
            },
        }
    }

    /// Returns the minimum leaf key in this subtree.
    pub fn minimum_key(&self) -> (key: Option<&K>)
        requires
            capacity_ok::<CAPACITY>(),
            self.inv(),
        ensures
            match key {
                None => self.entries().len() == 0,
                Some(key) => self.entries().len() > 0 && key@ == self.entries()[0].0,
            },
        decreases self.height(),
    {
        match self {
            Self::Leaf(leaf) => {
                if leaf.entries.len() == 0 {
                    None
                } else {
                    Some(leaf.entries[0].key())
                }
            },
            Self::Branch(branch) => {
                proof {
                    branch.lemma_child(0);
                    branch.lemma_split_at(0);
                }
                branch.leftmost.minimum_key()
            },
        }
    }

    pub fn is_underfull(&self) -> (result: bool)
        requires
            capacity_ok::<CAPACITY>(),
            self.size() <= self.max_size(),
        ensures
            result == self.underfull(),
    {
        match self {
            Self::Leaf(leaf) => leaf.entries.len() < CAPACITY / 2 + CAPACITY % 2,
            Self::Branch(branch) => {
                let children = CAPACITY + 1;
                branch.child_count() < children / 2 + children % 2
            },
        }
    }

    pub fn can_lend(&self) -> (result: bool)
        requires
            capacity_ok::<CAPACITY>(),
            self.size() <= self.max_size(),
        ensures
            result == self.lendable(),
    {
        match self {
            Self::Leaf(leaf) => leaf.entries.len() > CAPACITY / 2 + CAPACITY % 2,
            Self::Branch(branch) => {
                let children = CAPACITY + 1;
                branch.child_count() > children / 2 + children % 2
            },
        }
    }

    pub fn is_empty_leaf(&self) -> (empty: bool)
        ensures
            empty == (self is Leaf && self.size() == 0),
    {
        match self {
            Self::Leaf(leaf) => leaf.is_empty(),
            Self::Branch(_branch) => false,
        }
    }
}


// ---------------------------------------------------------------------------
// Insertion
// ---------------------------------------------------------------------------

/// An insertion into a middle part, between parts that sort below and above the
/// key, is an insertion into the whole.
pub proof fn lemma_inserted_in_middle<K: OrderedKey, V>(
    left: Seq<(K::V, V)>,
    middle: Seq<(K::V, V)>,
    new_middle: Seq<(K::V, V)>,
    right: Seq<(K::V, V)>,
    key: K::V,
    value: V,
    index: int,
)
    requires
        all_below::<K, V>(left, key),
        all_above::<K, V>(right, key),
        inserted_at::<K, V>(middle, new_middle, key, value, index),
    ensures
        inserted_at::<K, V>(
            left + middle + right,
            left + new_middle + right,
            key,
            value,
            left.len() + index,
        ),
{
    let old = left + middle + right;
    let i = left.len() + index;
    assert(left + new_middle + right =~= old.insert(i, (key, value)));
    assert forall|j: int| #![trigger old[j]] 0 <= j < i implies K::less(old[j].0, key) by {
        if j < left.len() {
            assert(old[j] == left[j]);
        } else {
            assert(old[j] == middle[j - left.len()]);
        }
    }
    assert forall|j: int| #![trigger old[j]] i <= j < old.len() implies K::less(key, old[j].0) by {
        if j < left.len() + middle.len() {
            assert(old[j] == middle[j - left.len()]);
        } else {
            assert(old[j] == right[j - left.len() - middle.len()]);
        }
    }
}

/// A value replacement in a middle part is a replacement in the whole.
pub proof fn lemma_replaced_in_middle<K: OrderedKey, V>(
    left: Seq<(K::V, V)>,
    middle: Seq<(K::V, V)>,
    new_middle: Seq<(K::V, V)>,
    right: Seq<(K::V, V)>,
    key: K::V,
    value: V,
    index: int,
)
    requires
        replaced_at::<K, V>(middle, new_middle, key, value, index),
    ensures
        replaced_at::<K, V>(
            left + middle + right,
            left + new_middle + right,
            key,
            value,
            left.len() + index,
        ),
        (left + middle + right)[left.len() + index] == middle[index],
{
    let old = left + middle + right;
    assert(left + new_middle + right =~= old.update(left.len() + index, (key, value)));
    assert(old[left.len() + index] == middle[index]);
}

impl<K: OrderedKey, V, const CAPACITY: usize> BranchNode<K, V, CAPACITY> {
    /// A branch's entries are those of the children up to and including
    /// `position`, then those after it.
    pub proof fn lemma_split_after(self, position: int)
        requires
            0 <= position <= self.rightward@.len(),
        ensures
            self.entries() == self.before(position + 1) + self.after(position),
    {
        self.lemma_split_at(position);
        self.lemma_before_step(position);
        assert(self.entries() =~= self.before(position + 1) + self.after(position));
    }

    fn reserve_overflow_capacity(&mut self)
        ensures
            final(self).leftmost == old(self).leftmost,
            final(self).rightward@ == old(self).rightward@,
    {
        let overflow_capacity = CAPACITY.saturating_add(1);
        let additional = overflow_capacity.saturating_sub(self.rightward.len());
        vec_reserve_exact(&mut self.rightward, additional);
    }

    fn insert_edge_after(&mut self, position: ChildIndex, edge: BranchEdge<K, V, CAPACITY>)
        requires
            position.0 <= old(self).rightward@.len(),
        ensures
            final(self).leftmost == old(self).leftmost,
            final(self).rightward@ == old(self).rightward@.insert(position.0 as int, edge),
            final(self).entries() == old(self).before(position.0 + 1) + edge.child.entries()
                + old(self).after(position.0 as int),
    {
        let ghost old_self = *self;
        self.rightward.insert(position.get(), edge);
        proof {
            let p = position.0 as int;
            let old_edges = old_self.rightward@;
            let front = old_edges.take(p);
            let back = old_edges.skip(p);
            assert(self.rightward@ =~= front + seq![edge] + back);
            lemma_edges_entries_concat(front + seq![edge], back);
            lemma_edges_entries_concat(front, seq![edge]);
            lemma_edges_entries_single(edge);
            lemma_edges_entries_same_children(front, old_edges, p as nat);
            old_self.lemma_split_after(p);
            if p == 0 {
                assert(Node::<K, V, CAPACITY>::all_edges_entries(front) =~= Seq::empty());
                assert(Node::<K, V, CAPACITY>::edges_entries(old_edges, 0) =~= Seq::empty());
            }
            assert(self.entries() =~= old_self.before(p + 1) + edge.child.entries() + old_self.after(p));
        }
    }

    /// Splits an overflowing branch, promoting the middle separator.
    fn split(&mut self) -> (result: InsertResult<K, V, CAPACITY>)
        requires
            capacity_ok::<CAPACITY>(),
            old(self).rightward@.len() == CAPACITY + 1,
            sorted::<K, V>(old(self).entries()),
            old(self).leftmost.inv(),
            !old(self).leftmost.underfull(),
            forall|i: int|
                0 <= i < old(self).rightward@.len() ==> Node::<K, V, CAPACITY>::edge_ok(
                    #[trigger] old(self).rightward@[i],
                    old(self).leftmost.height(),
                ),
        ensures
            match result {
                InsertResult::InsertedAndSplit { separator, right } => {
                    &&& final(self).entries() + right.entries() == old(self).entries()
                    &&& final(self).inv()
                    &&& !Node::Branch(*final(self)).underfull()
                    &&& right.inv()
                    &&& !right.underfull()
                    &&& right.height() == old(self).height()
                    &&& final(self).height() == old(self).height()
                    &&& final(self).entries().len() > 0
                    &&& right.entries().len() > 0
                    &&& separator@ == right.entries()[0].0
                    &&& final(self).leftmost == old(self).leftmost
                    &&& final(self).rightward@ == old(self).rightward@.take((CAPACITY + 1) / 2)
                    &&& separator == old(self).rightward@[(CAPACITY + 1) / 2].lower_bound
                    &&& *right matches Node::Branch(right_branch) && right_branch.leftmost == old(
                        self,
                    ).rightward@[(CAPACITY + 1) / 2].child && right_branch.rightward@ == old(
                        self,
                    ).rightward@.skip((CAPACITY + 1) / 2 + 1)
                },
                _ => false,
            },
    {
        let ghost old_self = *self;
        let ghost edges = self.rightward@;
        let promoted_index = CAPACITY.saturating_add(1) / 2;
        let mut right_edges = self.rightward.split_off(promoted_index.saturating_add(1));
        let promoted = self.rightward.remove(promoted_index);
        let additional = CAPACITY.saturating_add(1).saturating_sub(right_edges.len());
        vec_reserve_exact(&mut right_edges, additional);
        let right_branch = Self { leftmost: promoted.child, rightward: right_edges };
        proof {
            let p = promoted_index as int;
            let h = old_self.leftmost.height();
            assert(self.rightward@ =~= edges.take(p));
            assert(right_edges@ =~= edges.skip(p + 1));
            assert(promoted == edges[p]);
            assert(Node::<K, V, CAPACITY>::edge_ok(edges[p], h));
            let front = edges.take(p);
            let back = edges.skip(p + 1);
            assert(edges =~= front + seq![promoted] + back);
            lemma_edges_entries_concat(front + seq![promoted], back);
            lemma_edges_entries_concat(front, seq![promoted]);
            lemma_edges_entries_single(promoted);
            let left_entries = old_self.leftmost.entries() + Node::<K, V, CAPACITY>::all_edges_entries(front);
            let right_entries = promoted.child.entries() + Node::<K, V, CAPACITY>::all_edges_entries(back);
            assert(self.entries() == left_entries);
            assert(right_branch.entries() == right_entries);
            assert(old_self.entries() =~= left_entries + right_entries);
            lemma_sorted_concat::<K, V>(left_entries, right_entries);
            assert forall|i: int| 0 <= i < self.rightward@.len() implies Node::<K, V, CAPACITY>::edge_ok(
                #[trigger] self.rightward@[i],
                self.leftmost.height(),
            ) by {
                assert(self.rightward@[i] == edges[i]);
            }
            assert forall|i: int| 0 <= i < right_branch.rightward@.len() implies Node::<
                K,
                V,
                CAPACITY,
            >::edge_ok(#[trigger] right_branch.rightward@[i], right_branch.leftmost.height()) by {
                assert(right_branch.rightward@[i] == edges[p + 1 + i]);
            }
            assert(right_entries[0] == promoted.child.entries()[0]);
            self.leftmost.lemma_nonempty();
        }
        let right = Box::new(Node::Branch(right_branch));
        InsertResult::InsertedAndSplit { separator: promoted.lower_bound, right }
    }
}


impl<K: OrderedKey, V, const CAPACITY: usize> BranchNode<K, V, CAPACITY> {
    /// Adds the right half of a split child after it, splitting this branch in
    /// turn when it overflows.
    fn absorb_child_split(
        &mut self,
        position: ChildIndex,
        separator: K,
        right: Box<Node<K, V, CAPACITY>>,
    ) -> (result: InsertResult<K, V, CAPACITY>)
        requires
            capacity_ok::<CAPACITY>(),
            old(self).inv(),
            position.0 <= old(self).rightward@.len(),
            Node::<K, V, CAPACITY>::edge_ok(
                BranchEdge { lower_bound: separator, child: right },
                old(self).leftmost.height(),
            ),
            sorted::<K, V>(
                old(self).before(position.0 + 1) + right.entries() + old(self).after(position.0 as int),
            ),
        ensures
            ({
                let spliced = old(self).before(position.0 + 1) + right.entries() + old(self).after(
                    position.0 as int,
                );
                match result {
                    InsertResult::Inserted => {
                        &&& final(self).inv()
                        &&& final(self).entries() == spliced
                        &&& final(self).height() == old(self).height()
                        &&& final(self).rightward@.len() == old(self).rightward@.len() + 1
                    },
                    InsertResult::InsertedAndSplit { separator, right } => {
                        &&& final(self).entries() + right.entries() == spliced
                        &&& final(self).inv()
                        &&& !Node::Branch(*final(self)).underfull()
                        &&& right.inv()
                        &&& !right.underfull()
                        &&& right.height() == old(self).height()
                        &&& final(self).height() == old(self).height()
                        &&& final(self).entries().len() > 0
                        &&& right.entries().len() > 0
                        &&& separator@ == right.entries()[0].0
                        &&& right.size() == CAPACITY + 1 - (CAPACITY + 1) / 2
                        &&& final(self).rightward@.len() == (CAPACITY + 1) / 2
                    },
                    InsertResult::Replaced { .. } => false,
                }
            }),
    {
        let ghost old_self = *self;
        let edge = BranchEdge::new(separator, right);
        self.reserve_overflow_capacity();
        self.insert_edge_after(position, edge);
        proof {
            let p = position.0 as int;
            assert forall|i: int| 0 <= i < self.rightward@.len() implies Node::<K, V, CAPACITY>::edge_ok(
                #[trigger] self.rightward@[i],
                self.leftmost.height(),
            ) by {
                if i < p {
                    assert(self.rightward@[i] == old_self.rightward@[i]);
                    assert(Node::<K, V, CAPACITY>::edge_ok(old_self.rightward@[i], old_self.leftmost.height()));
                } else if i > p {
                    assert(self.rightward@[i] == old_self.rightward@[i - 1]);
                    assert(Node::<K, V, CAPACITY>::edge_ok(
                        old_self.rightward@[i - 1],
                        old_self.leftmost.height(),
                    ));
                }
            }
        }
        if self.edge_count() <= CAPACITY {
            InsertResult::Inserted
        } else {
            self.split()
        }
    }

    #[verifier::rlimit(40)]
    pub fn insert(&mut self, key: K, value: V) -> (result: InsertResult<K, V, CAPACITY>)
        requires
            capacity_ok::<CAPACITY>(),
            old(self).inv(),
        ensures
            Node::insert_post(Node::Branch(*old(self)), Node::Branch(*final(self)), key@, value, result),
        decreases old(self).height(), 0nat,
    {
        let ghost old_self = *self;
        let ghost key_view = key@;
        let position = self.child_position(&key);
        let ghost p = position.0 as int;
        let ghost before = old_self.before(p);
        let ghost after = old_self.after(p);
        let ghost old_child = old_self.child(p);
        proof {
            old_self.lemma_route(p, key_view);
            old_self.lemma_split_at(p);
            old_self.lemma_child(p);
        }
        let child = self.child_at_position_mut(position);
        let child_result = child.insert(key, value);
        let ghost new_child = *child;
        proof {
            Self::lemma_child_replaced_entries(old_self, *self, p, new_child);
        }
        match child_result {
            InsertResult::Inserted => {
                proof {
                    let ci = choose|i: int|
                        inserted_at::<K, V>(old_child.entries(), new_child.entries(), key_view, value, i);
                    lemma_inserted_in_middle::<K, V>(
                        before,
                        old_child.entries(),
                        new_child.entries(),
                        after,
                        key_view,
                        value,
                        ci,
                    );
                    lemma_sorted_insert::<K, V>(
                        old_self.entries(),
                        self.entries(),
                        key_view,
                        value,
                        before.len() + ci,
                    );
                    if p > 0 {
                        assert(ci > 0);
                        assert(new_child.entries()[0] == old_child.entries()[0]);
                    }
                    Self::lemma_child_replaced_inv(old_self, *self, p, new_child);
                    assert(inserted_at::<K, V>(
                        Node::Branch(old_self).entries(),
                        Node::Branch(*self).entries(),
                        key_view,
                        value,
                        before.len() + ci,
                    ));
                }
                InsertResult::Inserted
            },
            InsertResult::Replaced { previous } => {
                proof {
                    let ci = choose|i: int|
                        replaced_at::<K, V>(old_child.entries(), new_child.entries(), key_view, value, i)
                            && previous == old_child.entries()[i].1;
                    lemma_replaced_in_middle::<K, V>(
                        before,
                        old_child.entries(),
                        new_child.entries(),
                        after,
                        key_view,
                        value,
                        ci,
                    );
                    lemma_sorted_update_value::<K, V>(
                        old_self.entries(),
                        self.entries(),
                        key_view,
                        value,
                        before.len() + ci,
                    );
                    if p > 0 {
                        assert(new_child.entries()[0].0 == old_child.entries()[0].0);
                    }
                    Self::lemma_child_replaced_inv(old_self, *self, p, new_child);
                    assert(replaced_at::<K, V>(
                        Node::Branch(old_self).entries(),
                        Node::Branch(*self).entries(),
                        key_view,
                        value,
                        before.len() + ci,
                    ) && previous == Node::Branch(old_self).entries()[before.len() + ci].1);
                }
                InsertResult::Replaced { previous }
            },
            InsertResult::InsertedAndSplit { separator, right } => {
                let ghost right_entries = right.entries();
                proof {
                    let ci = choose|i: int|
                        inserted_at::<K, V>(
                            old_child.entries(),
                            new_child.entries() + right.entries(),
                            key_view,
                            value,
                            i,
                        );
                    lemma_inserted_in_middle::<K, V>(
                        before,
                        old_child.entries(),
                        new_child.entries() + right_entries,
                        after,
                        key_view,
                        value,
                        ci,
                    );
                    let whole = before + (new_child.entries() + right_entries) + after;
                    lemma_sorted_insert::<K, V>(old_self.entries(), whole, key_view, value, before.len() + ci);
                    let shrunk = before + new_child.entries() + after;
                    assert(whole =~= (before + new_child.entries()) + (right_entries + after));
                    lemma_sorted_concat::<K, V>(before + new_child.entries(), right_entries + after);
                    lemma_sorted_concat::<K, V>(right_entries, after);
                    let bc = before + new_child.entries();
                    let ra = right_entries + after;
                    assert forall|i: int, j: int|
                        #![trigger bc[i], after[j]]
                        0 <= i < bc.len() && 0 <= j < after.len() implies K::less(bc[i].0, after[j].0) by {
                        assert(ra[right_entries.len() + j] == after[j]);
                        assert(K::less(bc[i].0, ra[right_entries.len() + j].0));
                    }
                    lemma_sorted_join::<K, V>(bc, after);
                    assert(shrunk =~= (before + new_child.entries()) + after);
                    if p > 0 {
                        assert(ci > 0);
                        assert((new_child.entries() + right_entries)[0] == old_child.entries()[0]);
                        assert(new_child.entries()[0] == (new_child.entries() + right_entries)[0]);
                    }
                    Self::lemma_child_replaced_inv(old_self, *self, p, new_child);
                    self.lemma_before_step(p);
                    assert(self.before(p + 1) + right_entries + self.after(p) =~= whole);
                }
                let result = self.absorb_child_split(position, separator, right);
                proof {
                    let ci = choose|i: int|
                        inserted_at::<K, V>(
                            old_child.entries(),
                            new_child.entries() + right_entries,
                            key_view,
                            value,
                            i,
                        );
                    let whole = before + (new_child.entries() + right_entries) + after;
                    assert(inserted_at::<K, V>(
                        Node::Branch(old_self).entries(),
                        whole,
                        key_view,
                        value,
                        before.len() + ci,
                    ));
                }
                result
            },
        }
    }
}

impl<K: OrderedKey, V, const CAPACITY: usize> Node<K, V, CAPACITY> {
    /// Inserts into a leaf or recursively into a branch.
    pub fn insert(&mut self, key: K, value: V) -> (result: InsertResult<K, V, CAPACITY>)
        requires
            capacity_ok::<CAPACITY>(),
            old(self).inv(),
        ensures
            Node::insert_post(*old(self), *final(self), key@, value, result),
        decreases old(self).height(), 1nat,
    {
        match self {
            Self::Leaf(leaf) => leaf.insert(key, value),
            Self::Branch(branch) => branch.insert(key, value),
        }
    }
}


// ---------------------------------------------------------------------------
// Rebalancing siblings
// ---------------------------------------------------------------------------

impl<K: OrderedKey, V, const CAPACITY: usize> Node<K, V, CAPACITY> {
    /// Two adjacent siblings that may exchange or pool entries.
    pub open spec fn siblings(left: Self, separator: K::V, right: Self) -> bool {
        &&& left.inv()
        &&& right.inv()
        &&& left.height() == right.height()
        &&& right.entries().len() > 0
        &&& separator == right.entries()[0].0
        &&& sorted::<K, V>(left.entries() + right.entries())
    }

    /// Moves the greatest entry, or the rightmost child, of `left` to the front
    /// of `right`, and makes the separator the new minimum of `right`.
    pub fn borrow_from_left(left: &mut Self, separator: &mut K, right: &mut Self)
        requires
            capacity_ok::<CAPACITY>(),
            Self::siblings(*old(left), old(separator)@, *old(right)),
            old(left).lendable(),
            old(right).size() < old(right).max_size(),
        ensures
            Self::siblings(*final(left), final(separator)@, *final(right)),
            final(left).entries() + final(right).entries() == old(left).entries() + old(right).entries(),
            final(left).size() + 1 == old(left).size(),
            final(right).size() == old(right).size() + 1,
            match (*old(left), *old(right)) {
                (Node::Leaf(a), Node::Leaf(b)) => {
                    &&& *final(left) matches Node::Leaf(l)
                    &&& *final(right) matches Node::Leaf(r)
                    &&& l.entries@ == a.entries@.drop_last()
                    &&& r.entries@ == seq![a.entries@.last()] + b.entries@
                },
                (Node::Branch(a), Node::Branch(b)) => {
                    &&& *final(left) matches Node::Branch(l)
                    &&& *final(right) matches Node::Branch(r)
                    &&& l.leftmost == a.leftmost
                    &&& l.rightward@ == a.rightward@.drop_last()
                    &&& r.leftmost == a.rightward@.last().child
                    &&& r.rightward@ == seq![BranchEdge { lower_bound: *old(separator), child: b.leftmost }]
                        + b.rightward@
                    &&& *final(separator) == a.rightward@.last().lower_bound
                },
                _ => false,
            },
            final(left).height() == old(left).height(),
            final(right).height() == old(right).height(),
    {
        proof {
            lemma_sorted_concat::<K, V>(left.entries(), right.entries());
        }
        match left {
            Self::Leaf(left_leaf) => match right {
                Self::Leaf(right_leaf) => {
                    let ghost left_pairs = left_leaf.pairs();
                    let ghost right_pairs = right_leaf.pairs();
                    let entry = left_leaf.entries.pop().unwrap();
                    *separator = entry.key().duplicate();
                    right_leaf.entries.insert(0, entry);
                    proof {
                        assert(left_leaf.pairs() =~= left_pairs.drop_last());
                        assert(right_leaf.pairs() =~= seq![left_pairs.last()] + right_pairs);
                        assert(left_leaf.pairs() + right_leaf.pairs() =~= left_pairs + right_pairs);
                        lemma_sorted_concat::<K, V>(left_leaf.pairs(), right_leaf.pairs());
                    }
                },
                Self::Branch(_right_branch) => {
                    proof {
                        assert(false);
                    }
                },
            },
            Self::Branch(left_branch) => match right {
                Self::Branch(right_branch) => {
                    let ghost old_left = *left_branch;
                    let ghost old_right = *right_branch;
                    let ghost edges = old_left.rightward@;
                    let edge = left_branch.rightward.pop().unwrap();
                    let BranchEdge { lower_bound, child } = edge;
                    let mut previous_leftmost = child;
                    std::mem::swap(&mut right_branch.leftmost, &mut previous_leftmost);
                    let mut previous_separator = lower_bound;
                    std::mem::swap(separator, &mut previous_separator);
                    let moved = BranchEdge::new(previous_separator, previous_leftmost);
                    right_branch.rightward.insert(0, moved);
                    proof {
                        let h = old_left.leftmost.height();
                        let last = edges.last();
                        assert(Self::edge_ok(last, h));
                        let front = edges.drop_last();
                        assert(edges =~= front + seq![last]);
                        lemma_edges_entries_concat(front, seq![last]);
                        lemma_edges_entries_single(last);
                        assert(left_branch.rightward@ =~= front);
                        lemma_edges_entries_concat(seq![moved], old_right.rightward@);
                        lemma_edges_entries_single(moved);
                        assert(right_branch.rightward@ =~= seq![moved] + old_right.rightward@);
                        let left_old = old_left.leftmost.entries() + Self::all_edges_entries(edges);
                        let right_old = old_right.leftmost.entries() + Self::all_edges_entries(
                            old_right.rightward@,
                        );
                        let left_new = left_branch.entries();
                        let right_new = right_branch.entries();
                        assert(left_new == old_left.leftmost.entries() + Self::all_edges_entries(front));
                        assert(right_new == last.child.entries() + (old_right.leftmost.entries()
                            + Self::all_edges_entries(old_right.rightward@)));
                        assert(left_new + right_new =~= left_old + right_old);
                        lemma_sorted_concat::<K, V>(left_new, right_new);
                        old_right.leftmost.lemma_nonempty();
                        assert(right_old[0] == old_right.leftmost.entries()[0]);
                        assert(right_new[0] == last.child.entries()[0]);
                        assert forall|i: int| 0 <= i < left_branch.rightward@.len() implies Self::edge_ok(
                            #[trigger] left_branch.rightward@[i],
                            left_branch.leftmost.height(),
                        ) by {
                            assert(left_branch.rightward@[i] == edges[i]);
                        }
                        assert forall|i: int| 0 <= i < right_branch.rightward@.len() implies Self::edge_ok(
                            #[trigger] right_branch.rightward@[i],
                            right_branch.leftmost.height(),
                        ) by {
                            if i > 0 {
                                assert(right_branch.rightward@[i] == old_right.rightward@[i - 1]);
                                assert(Self::edge_ok(old_right.rightward@[i - 1], old_right.leftmost.height()));
                            }
                        }
                    }
                },
                Self::Leaf(_right_leaf) => {
                    proof {
                        assert(false);
                    }
                },
            },
        }
    }
}


impl<K: OrderedKey, V, const CAPACITY: usize> Node<K, V, CAPACITY> {
    /// Moves the least entry, or the leftmost child, of `right` to the end of
    /// `left`, and makes the separator the new minimum of `right`.
    pub fn borrow_from_right(left: &mut Self, separator: &mut K, right: &mut Self)
        requires
            capacity_ok::<CAPACITY>(),
            Self::siblings(*old(left), old(separator)@, *old(right)),
            old(right).lendable(),
            old(left).size() < old(left).max_size(),
        ensures
            Self::siblings(*final(left), final(separator)@, *final(right)),
            final(left).entries() + final(right).entries() == old(left).entries() + old(right).entries(),
            final(left).size() == old(left).size() + 1,
            final(right).size() + 1 == old(right).size(),
            match (*old(left), *old(right)) {
                (Node::Leaf(a), Node::Leaf(b)) => {
                    &&& *final(left) matches Node::Leaf(l)
                    &&& *final(right) matches Node::Leaf(r)
                    &&& l.entries@ == a.entries@.push(b.entries@[0])
                    &&& r.entries@ == b.entries@.drop_first()
                },
                (Node::Branch(a), Node::Branch(b)) => {
                    &&& *final(left) matches Node::Branch(l)
                    &&& *final(right) matches Node::Branch(r)
                    &&& l.leftmost == a.leftmost
                    &&& l.rightward@ == a.rightward@.push(
                        BranchEdge { lower_bound: *old(separator), child: b.leftmost },
                    )
                    &&& r.leftmost == b.rightward@[0].child
                    &&& r.rightward@ == b.rightward@.drop_first()
                    &&& *final(separator) == b.rightward@[0].lower_bound
                },
                _ => false,
            },
            final(left).height() == old(left).height(),
            final(right).height() == old(right).height(),
    {
        proof {
            lemma_sorted_concat::<K, V>(left.entries(), right.entries());
        }
        match left {
            Self::Leaf(left_leaf) => match right {
                Self::Leaf(right_leaf) => {
                    let ghost left_pairs = left_leaf.pairs();
                    let ghost right_pairs = right_leaf.pairs();
                    let entry = right_leaf.entries.remove(0);
                    left_leaf.entries.push(entry);
                    *separator = right_leaf.entries[0].key().duplicate();
                    proof {
                        assert(left_leaf.pairs() =~= left_pairs.push(right_pairs[0]));
                        assert(right_leaf.pairs() =~= right_pairs.drop_first());
                        assert(left_leaf.pairs() + right_leaf.pairs() =~= left_pairs + right_pairs);
                        lemma_sorted_concat::<K, V>(left_leaf.pairs(), right_leaf.pairs());
                    }
                },
                Self::Branch(_right_branch) => {
                    proof {
                        assert(false);
                    }
                },
            },
            Self::Branch(left_branch) => match right {
                Self::Branch(right_branch) => {
                    let ghost old_left = *left_branch;
                    let ghost old_right = *right_branch;
                    let ghost edges = old_right.rightward@;
                    let edge = right_branch.rightward.remove(0);
                    let BranchEdge { lower_bound, child } = edge;
                    let mut borrowed = child;
                    std::mem::swap(&mut right_branch.leftmost, &mut borrowed);
                    let mut previous_separator = lower_bound;
                    std::mem::swap(separator, &mut previous_separator);
                    let moved = BranchEdge::new(previous_separator, borrowed);
                    left_branch.rightward.push(moved);
                    proof {
                        let h = old_right.leftmost.height();
                        let first = edges[0];
                        assert(Self::edge_ok(first, h));
                        let back = edges.drop_first();
                        assert(edges =~= seq![first] + back);
                        lemma_edges_entries_concat(seq![first], back);
                        lemma_edges_entries_single(first);
                        assert(right_branch.rightward@ =~= back);
                        lemma_edges_entries_concat(old_left.rightward@, seq![moved]);
                        lemma_edges_entries_single(moved);
                        assert(left_branch.rightward@ =~= old_left.rightward@ + seq![moved]);
                        let left_old = old_left.leftmost.entries() + Self::all_edges_entries(
                            old_left.rightward@,
                        );
                        let right_old = old_right.leftmost.entries() + Self::all_edges_entries(edges);
                        let left_new = left_branch.entries();
                        let right_new = right_branch.entries();
                        assert(left_new == left_old + old_right.leftmost.entries());
                        assert(right_new == first.child.entries() + Self::all_edges_entries(back));
                        assert(left_new + right_new =~= left_old + right_old);
                        lemma_sorted_concat::<K, V>(left_new, right_new);
                        old_right.leftmost.lemma_nonempty();
                        assert(right_old[0] == old_right.leftmost.entries()[0]);
                        assert(right_new[0] == first.child.entries()[0]);
                        assert forall|i: int| 0 <= i < left_branch.rightward@.len() implies Self::edge_ok(
                            #[trigger] left_branch.rightward@[i],
                            left_branch.leftmost.height(),
                        ) by {
                            if i < old_left.rightward@.len() {
                                assert(left_branch.rightward@[i] == old_left.rightward@[i]);
                                assert(Self::edge_ok(old_left.rightward@[i], old_left.leftmost.height()));
                            }
                        }
                        assert forall|i: int| 0 <= i < right_branch.rightward@.len() implies Self::edge_ok(
                            #[trigger] right_branch.rightward@[i],
                            right_branch.leftmost.height(),
                        ) by {
                            assert(right_branch.rightward@[i] == edges[i + 1]);
                        }
                    }
                },
                Self::Leaf(_right_leaf) => {
                    proof {
                        assert(false);
                    }
                },
            },
        }
    }

    /// Appends all entries, or all children, of `right` to this node.
    pub fn merge_right(&mut self, separator: K, right: Self)
        requires
            capacity_ok::<CAPACITY>(),
            Self::siblings(*old(self), separator@, right),
            old(self).size() + right.size() <= old(self).max_size(),
        ensures
            final(self).inv(),
            final(self).entries() == old(self).entries() + right.entries(),
            final(self).size() == old(self).size() + right.size(),
            final(self).height() == old(self).height(),
            match (*old(self), right) {
                (Node::Leaf(a), Node::Leaf(b)) => *final(self) matches Node::Leaf(m) && m.entries@
                    == a.entries@ + b.entries@,
                (Node::Branch(a), Node::Branch(b)) => {
                    &&& *final(self) matches Node::Branch(m)
                    &&& m.leftmost == a.leftmost
                    &&& m.rightward@ == a.rightward@ + seq![
                        BranchEdge { lower_bound: separator, child: b.leftmost },
                    ] + b.rightward@
                },
                _ => false,
            },
    {
        match self {
            Self::Leaf(left_leaf) => match right {
                Self::Leaf(right_leaf) => {
                    let ghost left_pairs = left_leaf.pairs();
                    let ghost right_pairs = right_leaf.pairs();
                    let mut right_leaf = right_leaf;
                    let _separator = separator;
                    left_leaf.entries.append(&mut right_leaf.entries);
                    proof {
                        assert(left_leaf.pairs() =~= left_pairs + right_pairs);
                    }
                },
                Self::Branch(_right_branch) => {
                    proof {
                        assert(false);
                    }
                },
            },
            Self::Branch(left_branch) => match right {
                Self::Branch(right_branch) => {
                    let ghost old_left = *left_branch;
                    let ghost old_right = right_branch;
                    let mut right_branch = right_branch;
                    let moved = BranchEdge::new(separator, right_branch.leftmost);
                    left_branch.rightward.push(moved);
                    left_branch.rightward.append(&mut right_branch.rightward);
                    proof {
                        let h = old_left.leftmost.height();
                        let left_edges = old_left.rightward@;
                        let right_edges = old_right.rightward@;
                        assert(left_branch.rightward@ =~= left_edges + seq![moved] + right_edges);
                        lemma_edges_entries_concat(left_edges + seq![moved], right_edges);
                        lemma_edges_entries_concat(left_edges, seq![moved]);
                        lemma_edges_entries_single(moved);
                        assert(left_branch.entries() =~= old_left.entries() + old_right.entries());
                        old_right.leftmost.lemma_nonempty();
                        assert(old_right.entries()[0] == old_right.leftmost.entries()[0]);
                        assert forall|i: int| 0 <= i < left_branch.rightward@.len() implies Self::edge_ok(
                            #[trigger] left_branch.rightward@[i],
                            left_branch.leftmost.height(),
                        ) by {
                            if i < left_edges.len() {
                                assert(left_branch.rightward@[i] == left_edges[i]);
                                assert(Self::edge_ok(left_edges[i], h));
                            } else if i > left_edges.len() {
                                assert(left_branch.rightward@[i] == right_edges[i - left_edges.len() - 1]);
                                assert(Self::edge_ok(
                                    right_edges[i - left_edges.len() - 1],
                                    old_right.leftmost.height(),
                                ));
                            }
                        }
                    }
                },
                Self::Leaf(_right_leaf) => {
                    proof {
                        assert(false);
                    }
                },
            },
        }
    }
}


// ---------------------------------------------------------------------------
// Removal
// ---------------------------------------------------------------------------

impl<K: OrderedKey, V, const CAPACITY: usize> Node<K, V, CAPACITY> {
    /// An edge whose child is valid, non-empty and of the given height; its
    /// separator and the child's occupancy may be off.
    pub open spec fn edge_loose(edge: BranchEdge<K, V, CAPACITY>, height: nat) -> bool {
        &&& edge.child.inv()
        &&& edge.child.height() == height
        &&& edge.child.entries().len() > 0
    }
}

impl<K: OrderedKey, V, const CAPACITY: usize> BranchNode<K, V, CAPACITY> {
    /// A branch during removal: every child valid and non-empty; all but the
    /// child at `position` at least half full with a correct separator; that
    /// child at most one below half full.
    pub open spec fn pending_child(self, position: int) -> bool {
        let h = self.leftmost.height();
        &&& 1 <= self.rightward@.len() <= CAPACITY
        &&& sorted::<K, V>(self.entries())
        &&& 0 <= position <= self.rightward@.len()
        &&& self.leftmost.inv()
        &&& self.leftmost.entries().len() > 0
        &&& position != 0 ==> !self.leftmost.underfull()
        &&& self.child(position).size() + 1 >= self.child(position).min_size()
        &&& forall|i: int|
            0 <= i < self.rightward@.len() ==> Node::<K, V, CAPACITY>::edge_loose(
                #[trigger] self.rightward@[i],
                h,
            )
        &&& forall|i: int|
            0 <= i < self.rightward@.len() && i + 1 != position ==> Node::<K, V, CAPACITY>::edge_ok(
                #[trigger] self.rightward@[i],
                h,
            )
    }

    /// The separator before the child at `position`, if any, is its minimum.
    pub open spec fn separator_fixed(self, position: int) -> bool {
        position > 0 ==> self.rightward@[position - 1].lower_bound@ == self.child(position).entries()[0].0
    }

    /// The children at `separator + 1` and at `separator` became `left` and
    /// `right`, with the separator between them now `key`.
    pub open spec fn adjacent_replaced(
        old: Self,
        new: Self,
        separator: int,
        left: Node<K, V, CAPACITY>,
        key: K,
        right: Node<K, V, CAPACITY>,
    ) -> bool {
        &&& 0 <= separator < old.rightward@.len()
        &&& separator == 0 ==> *new.leftmost == left && new.rightward@ == old.rightward@.update(
            0,
            BranchEdge { lower_bound: key, child: Box::new(right) },
        )
        &&& separator > 0 ==> new.leftmost == old.leftmost && new.rightward@
            == old.rightward@.update(
            separator - 1,
            BranchEdge { lower_bound: old.rightward@[separator - 1].lower_bound, child: Box::new(left) },
        ).update(separator, BranchEdge { lower_bound: key, child: Box::new(right) })
    }

    /// Mutable access to two adjacent children and the separator between them.
    fn adjacent_children_mut(&mut self, separator_index: usize) -> (children: (
        &mut Node<K, V, CAPACITY>,
        &mut K,
        &mut Node<K, V, CAPACITY>,
    ))
        requires
            separator_index < old(self).rightward@.len(),
        ensures
            *children.0 == old(self).child(separator_index as int),
            *children.1 == old(self).rightward@[separator_index as int].lower_bound,
            *children.2 == old(self).child(separator_index + 1),
            separator_index == 0 ==> *final(self).leftmost == *final(children.0)
                && final(self).rightward@ == old(self).rightward@.update(
                0,
                BranchEdge { lower_bound: *final(children.1), child: Box::new(*final(children.2)) },
            ),
            separator_index > 0 ==> final(self).leftmost == old(self).leftmost && final(self).rightward@
                == old(self).rightward@.update(
                separator_index - 1,
                BranchEdge {
                    lower_bound: old(self).rightward@[separator_index - 1].lower_bound,
                    child: Box::new(*final(children.0)),
                },
            ).update(
                separator_index as int,
                BranchEdge { lower_bound: *final(children.1), child: Box::new(*final(children.2)) },
            ),
    {
        if separator_index == 0 {
            let edge = &mut self.rightward[0];
            return (&mut *self.leftmost, &mut edge.lower_bound, &mut *edge.child);
        }
        let (leftward, rightward) = self.rightward.split_at_mut(separator_index);
        let left = leftward.last_mut().unwrap();
        let right = rightward.first_mut().unwrap();
        (&mut *left.child, &mut right.lower_bound, &mut *right.child)
    }
}


impl<K: OrderedKey, V, const CAPACITY: usize> BranchNode<K, V, CAPACITY> {
    /// A branch's entries around two adjacent children.
    pub proof fn lemma_split_pair(self, separator: int)
        requires
            0 <= separator < self.rightward@.len(),
        ensures
            self.entries() == self.before(separator) + self.child(separator).entries() + self.child(
                separator + 1,
            ).entries() + self.after(separator + 1),
    {
        self.lemma_split_at(separator + 1);
        self.lemma_before_step(separator);
    }

    /// Replacing two adjacent children keeps the entries around them.
    pub proof fn lemma_adjacent_replaced(
        old: Self,
        new: Self,
        separator: int,
        left: Node<K, V, CAPACITY>,
        key: K,
        right: Node<K, V, CAPACITY>,
    )
        requires
            Self::adjacent_replaced(old, new, separator, left, key, right),
        ensures
            new.child(separator) == left,
            new.child(separator + 1) == right,
            new.rightward@.len() == old.rightward@.len(),
            new.rightward@[separator].lower_bound == key,
            new.entries() == old.before(separator) + left.entries() + right.entries() + old.after(
                separator + 1,
            ),
            forall|i: int|
                0 <= i < new.rightward@.len() && i != separator && i + 1 != separator
                    ==> #[trigger] new.rightward@[i] == old.rightward@[i],
            separator > 0 ==> new.rightward@[separator - 1].lower_bound == old.rightward@[separator
                - 1].lower_bound,
    {
        new.lemma_split_pair(separator);
        if separator > 0 {
            lemma_edges_entries_same_children(new.rightward@, old.rightward@, (separator - 1) as nat);
        }
        assert(new.rightward@.skip(separator + 1) =~= old.rightward@.skip(separator + 1));
    }

    /// Moves an entry or child from the left sibling of the underfull child at
    /// `separator_index + 1`.
    fn borrow_from_left(&mut self, separator_index: usize)
        requires
            capacity_ok::<CAPACITY>(),
            old(self).pending_child(separator_index + 1),
            old(self).separator_fixed(separator_index + 1),
            old(self).child(separator_index + 1).underfull(),
            old(self).child(separator_index as int).lendable(),
        ensures
            final(self).inv(),
            final(self).entries() == old(self).entries(),
            final(self).rightward@.len() == old(self).rightward@.len(),
            final(self).height() == old(self).height(),
            forall|j: int|
                0 <= j <= old(self).rightward@.len() && j != separator_index && j != separator_index + 1
                    ==> #[trigger] final(self).child(j) == old(self).child(j),
            final(self).child(separator_index as int).size() + 1 == old(self).child(
                separator_index as int,
            ).size(),
            final(self).child(separator_index + 1).size() == old(self).child(separator_index + 1).size()
                + 1,
    {
        let ghost old_self = *self;
        let ghost s = separator_index as int;
        proof {
            old_self.lemma_split_pair(s);
            lemma_sorted_middle_pair::<K, V>(
                old_self.before(s),
                old_self.child(s).entries(),
                old_self.child(s + 1).entries(),
                old_self.after(s + 1),
            );
            if s > 0 {
                assert(Node::<K, V, CAPACITY>::edge_ok(old_self.rightward@[s - 1], old_self.leftmost.height()));
            }
            assert(Node::<K, V, CAPACITY>::edge_loose(old_self.rightward@[s], old_self.leftmost.height()));
        }
        let (left, separator, right) = self.adjacent_children_mut(separator_index);
        Node::borrow_from_left(left, separator, right);
        proof {
            let h = old_self.leftmost.height();
            let new_left = old_self.child(s);
            let new_right = old_self.child(s + 1);
            assert(Self::adjacent_replaced(
                old_self,
                *self,
                s,
                self.child(s),
                self.rightward@[s].lower_bound,
                self.child(s + 1),
            ));
            Self::lemma_adjacent_replaced(
                old_self,
                *self,
                s,
                self.child(s),
                self.rightward@[s].lower_bound,
                self.child(s + 1),
            );
            self.child(s).lemma_nonempty();
            let l = self.child(s).entries();
            assert(l[0] == (l + self.child(s + 1).entries())[0]);
            assert(new_left.entries()[0] == (new_left.entries() + new_right.entries())[0]);
            let before = old_self.before(s);
            let after = old_self.after(s + 1);
            let nl = self.child(s).entries();
            let nr = self.child(s + 1).entries();
            let ol = old_self.child(s).entries();
            let or = old_self.child(s + 1).entries();
            assert(before + nl + nr + after =~= before + (nl + nr) + after);
            assert(before + ol + or + after =~= before + (ol + or) + after);
            old_self.lemma_split_pair(s);

            assert forall|i: int| 0 <= i < self.rightward@.len() implies Node::<K, V, CAPACITY>::edge_ok(
                #[trigger] self.rightward@[i],
                self.leftmost.height(),
            ) by {
                if i != s && i + 1 != s {
                    assert(self.rightward@[i] == old_self.rightward@[i]);
                    assert(Node::<K, V, CAPACITY>::edge_ok(old_self.rightward@[i], h));
                }
            }
        }
    }

    /// Moves an entry or child from the right sibling of the underfull child at
    /// `separator_index`.
    fn borrow_from_right(&mut self, separator_index: usize)
        requires
            capacity_ok::<CAPACITY>(),
            old(self).pending_child(separator_index as int),
            old(self).separator_fixed(separator_index as int),
            old(self).child(separator_index as int).underfull(),
            separator_index < old(self).rightward@.len(),
            old(self).child(separator_index + 1).lendable(),
        ensures
            final(self).inv(),
            final(self).entries() == old(self).entries(),
            final(self).rightward@.len() == old(self).rightward@.len(),
            final(self).height() == old(self).height(),
            forall|j: int|
                0 <= j <= old(self).rightward@.len() && j != separator_index && j != separator_index + 1
                    ==> #[trigger] final(self).child(j) == old(self).child(j),
            final(self).child(separator_index as int).size() == old(self).child(
                separator_index as int,
            ).size() + 1,
            final(self).child(separator_index + 1).size() + 1 == old(self).child(separator_index + 1).size(),
    {
        let ghost old_self = *self;
        let ghost s = separator_index as int;
        proof {
            old_self.lemma_split_pair(s);
            lemma_sorted_middle_pair::<K, V>(
                old_self.before(s),
                old_self.child(s).entries(),
                old_self.child(s + 1).entries(),
                old_self.after(s + 1),
            );
            assert(Node::<K, V, CAPACITY>::edge_ok(old_self.rightward@[s], old_self.leftmost.height()));
            if s > 0 {
                assert(Node::<K, V, CAPACITY>::edge_loose(
                    old_self.rightward@[s - 1],
                    old_self.leftmost.height(),
                ));
            }
        }
        let (left, separator, right) = self.adjacent_children_mut(separator_index);
        Node::borrow_from_right(left, separator, right);
        proof {
            let h = old_self.leftmost.height();
            let old_left = old_self.child(s);
            let old_right = old_self.child(s + 1);
            Self::lemma_adjacent_replaced(
                old_self,
                *self,
                s,
                self.child(s),
                self.rightward@[s].lower_bound,
                self.child(s + 1),
            );
            self.child(s).lemma_nonempty();
            let l = self.child(s).entries();
            assert(l[0] == (l + self.child(s + 1).entries())[0]);
            assert(old_left.entries()[0] == (old_left.entries() + old_right.entries())[0]);
            let before = old_self.before(s);
            let after = old_self.after(s + 1);
            let nl = self.child(s).entries();
            let nr = self.child(s + 1).entries();
            let ol = old_self.child(s).entries();
            let or = old_self.child(s + 1).entries();
            assert(before + nl + nr + after =~= before + (nl + nr) + after);
            assert(before + ol + or + after =~= before + (ol + or) + after);
            old_self.lemma_split_pair(s);

            assert forall|i: int| 0 <= i < self.rightward@.len() implies Node::<K, V, CAPACITY>::edge_ok(
                #[trigger] self.rightward@[i],
                self.leftmost.height(),
            ) by {
                if i != s && i + 1 != s {
                    assert(self.rightward@[i] == old_self.rightward@[i]);
                    assert(Node::<K, V, CAPACITY>::edge_ok(old_self.rightward@[i], h));
                }
            }
        }
    }
}


impl<K: OrderedKey, V, const CAPACITY: usize> Node<K, V, CAPACITY> {
    /// A valid node at most one below half full holds at least one entry.
    pub proof fn lemma_nonempty_relaxed(self)
        requires
            3 <= CAPACITY,
            self.inv(),
            self.size() + 1 >= self.min_size(),
        ensures
            self.entries().len() > 0,
    {
        match self {
            Node::Leaf(_) => {},
            Node::Branch(branch) => {
                branch.leftmost.lemma_nonempty();
            },
        }
    }
}

/// How the separator before a child relates to the child after a removal.
pub open spec fn separator_pending<K: OrderedKey, V>(
    separator: K::V,
    child: Seq<(K::V, V)>,
    minimum: MinimumChange<K>,
) -> bool {
    match minimum {
        MinimumChange::Unchanged => child.len() > 0 && separator == child[0].0,
        MinimumChange::Changed(key) => child.len() > 0 && key@ == child[0].0,
        MinimumChange::Removed => child.len() == 0,
    }
}

impl<K: OrderedKey + View, V, const CAPACITY: usize> BranchNode<K, V, CAPACITY> {
    /// Joins two adjacent children, one of them one below half full and the
    /// other exactly half full.
    #[verifier::rlimit(40)]
    fn merge_children(&mut self, separator_index: usize, Ghost(position): Ghost<int>)
        requires
            capacity_ok::<CAPACITY>(),
            old(self).pending_child(position),
            old(self).separator_fixed(position),
            old(self).child(position).underfull(),
            separator_index < old(self).rightward@.len(),
            (separator_index + 1 == position && !old(self).child(separator_index as int).lendable())
                || (separator_index == position && !old(self).child(position + 1).lendable()),
        ensures
            final(self).inv(),
            final(self).entries() == old(self).entries(),
            final(self).rightward@.len() + 1 == old(self).rightward@.len(),
            final(self).height() == old(self).height(),
            final(self).child(separator_index as int).size() == old(self).child(
                separator_index as int,
            ).size() + old(self).child(separator_index + 1).size(),
            forall|j: int| 0 <= j < separator_index ==> #[trigger] final(self).child(j) == old(self).child(j),
            forall|j: int|
                separator_index < j <= final(self).rightward@.len() ==> #[trigger] final(self).child(j)
                    == old(self).child(j + 1),
    {
        let ghost old_self = *self;
        let ghost s = separator_index as int;
        let ghost h = old_self.leftmost.height();
        proof {
            old_self.lemma_split_pair(s);
            lemma_sorted_middle_pair::<K, V>(
                old_self.before(s),
                old_self.child(s).entries(),
                old_self.child(s + 1).entries(),
                old_self.after(s + 1),
            );
            assert(Node::<K, V, CAPACITY>::edge_loose(old_self.rightward@[s], h));
            if s > 0 {
                assert(Node::<K, V, CAPACITY>::edge_loose(old_self.rightward@[s - 1], h));
            }
        }
        let right = self.rightward.remove(separator_index);
        let ghost middle = *self;
        proof {
            if s > 0 {
                lemma_edges_entries_same_children(middle.rightward@, old_self.rightward@, (s - 1) as nat);
            }
            assert(middle.rightward@.skip(s) =~= old_self.rightward@.skip(s + 1));
            assert(middle.before(s) == old_self.before(s));
            assert(middle.after(s) == old_self.after(s + 1));
            assert(middle.child(s) == old_self.child(s));
        }
        let left = self.child_at_position_mut(ChildIndex::new(separator_index));
        left.merge_right(right.lower_bound, *right.child);
        proof {
            let merged = self.child(s);
            Self::lemma_child_replaced_entries(middle, *self, s, merged);
            let before = old_self.before(s);
            let after = old_self.after(s + 1);
            let l = old_self.child(s).entries();
            let r = old_self.child(s + 1).entries();
            assert(before + (l + r) + after =~= before + l + r + after);
            merged.lemma_nonempty();
            old_self.child(s).lemma_nonempty_relaxed();
            assert(merged.entries()[0] == l[0]);
            assert forall|i: int| 0 <= i < self.rightward@.len() implies Node::<K, V, CAPACITY>::edge_ok(
                #[trigger] self.rightward@[i],
                self.leftmost.height(),
            ) by {
                if i + 1 < s {
                    assert(self.rightward@[i] == old_self.rightward@[i]);
                    assert(Node::<K, V, CAPACITY>::edge_ok(old_self.rightward@[i], h));
                } else if i + 1 > s {
                    assert(self.rightward@[i] == old_self.rightward@[i + 1]);
                    assert(Node::<K, V, CAPACITY>::edge_ok(old_self.rightward@[i + 1], h));
                } else {
                    assert(self.rightward@[i].lower_bound == old_self.rightward@[i].lower_bound);
                }
            }
            assert forall|j: int| 0 <= j < s implies #[trigger] self.child(j) == old_self.child(j) by {
                if j > 0 {
                    assert(self.rightward@[j - 1] == old_self.rightward@[j - 1]);
                }
            }
            assert forall|j: int| s < j <= self.rightward@.len() implies #[trigger] self.child(j)
                == old_self.child(j + 1) by {
                assert(self.rightward@[j - 1] == old_self.rightward@[j]);
            }
        }
    }

    /// Restores every separator to the minimum key of its child.
    fn refresh_separators(&mut self)
        requires
            capacity_ok::<CAPACITY>(),
            forall|i: int|
                0 <= i < old(self).rightward@.len() ==> (#[trigger] old(self).rightward@[i]).child.inv()
                    && old(self).rightward@[i].child.entries().len() > 0,
        ensures
            final(self).leftmost == old(self).leftmost,
            final(self).rightward@.len() == old(self).rightward@.len(),
            forall|i: int|
                0 <= i < final(self).rightward@.len() ==> (#[trigger] final(self).rightward@[i]).child
                    == old(self).rightward@[i].child && final(self).rightward@[i].lower_bound@
                    == final(self).rightward@[i].child.entries()[0].0,
            final(self).entries() == old(self).entries(),
    {
        let ghost old_self = *self;
        let mut index: usize = 0;
        while index < self.rightward.len()
            invariant
                capacity_ok::<CAPACITY>(),
                self.leftmost == old_self.leftmost,
                self.rightward@.len() == old_self.rightward@.len(),
                index <= self.rightward@.len(),
                forall|i: int|
                    0 <= i < self.rightward@.len() ==> (#[trigger] self.rightward@[i]).child
                        == old_self.rightward@[i].child,
                forall|i: int|
                    0 <= i < old_self.rightward@.len() ==> (#[trigger] old_self.rightward@[i]).child.inv()
                        && old_self.rightward@[i].child.entries().len() > 0,
                forall|i: int|
                    0 <= i < index ==> (#[trigger] self.rightward@[i]).lower_bound@
                        == self.rightward@[i].child.entries()[0].0,
            decreases self.rightward@.len() - index,
        {
            assert(self.rightward@[index as int].child == old_self.rightward@[index as int].child);
            let minimum = self.rightward[index].child.minimum_key().unwrap().duplicate();
            let edge = &mut self.rightward[index];
            edge.lower_bound = minimum;
            index = index + 1;
        }
        proof {
            lemma_edges_entries_same_children(
                self.rightward@,
                old_self.rightward@,
                self.rightward@.len() as nat,
            );
        }
    }

    /// Restores the occupancy of the child at `index`, one below half full, by
    /// borrowing from a sibling that can lend, or else by merging with one.
    /// The sibling left of the child at `index` can lend it an item.
    pub open spec fn left_lends(self, index: int) -> bool {
        index > 0 && self.child(index - 1).lendable()
    }

    /// The sibling right of the child at `index` can lend it an item.
    pub open spec fn right_lends(self, index: int) -> bool {
        index < self.rightward@.len() && self.child(index + 1).lendable()
    }

    /// `new` is `old` after removing `key` through the child at `position`:
    /// `middle` is `old` with that child's entry for `key` removed, and `new`
    /// is `middle` with that child refilled when it became underfull.
    pub open spec fn removed_through(old: Self, middle: Self, new: Self, position: int, key: K::V) -> bool {
        &&& old.routes_to(position, key)
        &&& Self::child_replaced(old, middle, position, middle.child(position))
        &&& exists|i: int|
            removed_at::<K, V>(old.child(position).entries(), middle.child(position).entries(), key, i)
        &&& middle.child(position).underfull() ==> Self::rebalanced(middle, new, position)
        &&& !middle.child(position).underfull() ==> {
            &&& new.rightward@.len() == middle.rightward@.len()
            &&& forall|j: int|
                0 <= j <= middle.rightward@.len() ==> #[trigger] new.child(j) == middle.child(j)
        }
    }

    /// `new` is `old` after removing `key` down the routed child, as
    /// `removed_through` describes.
    pub open spec fn removal_shape(old: Self, new: Self, key: K::V) -> bool {
        exists|position: int, middle: Self|
            #[trigger] Self::removed_through(old, middle, new, position, key)
    }

    /// The branch after its underfull child at `index` was refilled: the left
    /// sibling lent its last item if it could, else the right sibling lent its
    /// first item if it could, else the child merged into its left sibling, or
    /// its right sibling into it when it is the first child. The two children
    /// involved change size accordingly and every other child stays as it
    /// was, moving one place left after a merge.
    pub open spec fn rebalanced(old: Self, new: Self, index: int) -> bool {
        let count = old.rightward@.len();
        if old.left_lends(index) {
            &&& new.rightward@.len() == count
            &&& new.child(index - 1).size() + 1 == old.child(index - 1).size()
            &&& new.child(index).size() == old.child(index).size() + 1
            &&& forall|j: int|
                0 <= j <= count && j != index - 1 && j != index ==> #[trigger] new.child(j) == old.child(j)
        } else if old.right_lends(index) {
            &&& new.rightward@.len() == count
            &&& new.child(index).size() == old.child(index).size() + 1
            &&& new.child(index + 1).size() + 1 == old.child(index + 1).size()
            &&& forall|j: int|
                0 <= j <= count && j != index && j != index + 1 ==> #[trigger] new.child(j) == old.child(j)
        } else {
            let merged = if index > 0 {
                index - 1
            } else {
                0
            };
            &&& new.rightward@.len() + 1 == count
            &&& new.child(merged).size() == old.child(merged).size() + old.child(merged + 1).size()
            &&& forall|j: int| 0 <= j < merged ==> #[trigger] new.child(j) == old.child(j)
            &&& forall|j: int|
                merged < j <= new.rightward@.len() ==> #[trigger] new.child(j) == old.child(j + 1)
        }
    }

    /// Refills the underfull child at `index`: its left sibling lends if it
    /// can, else its right sibling lends if it can, else it merges with its
    /// left sibling, or with its right sibling when it is the first child.
    fn rebalance_child(&mut self, index: usize)
        requires
            capacity_ok::<CAPACITY>(),
            old(self).pending_child(index as int),
            old(self).separator_fixed(index as int),
            old(self).child(index as int).underfull(),
        ensures
            final(self).inv(),
            final(self).entries() == old(self).entries(),
            final(self).rightward@.len() + 1 == old(self).rightward@.len() || final(self).rightward@.len()
                == old(self).rightward@.len(),
            final(self).height() == old(self).height(),
            Self::rebalanced(*old(self), *final(self), index as int),
    {
        let ghost h = self.leftmost.height();
        let left_can_lend = if index > 0 {
            match self.child_at(index - 1) {
                Some(child) => {
                    proof {
                        if index > 1 {
                            assert(Node::<K, V, CAPACITY>::edge_ok(self.rightward@[index - 2], h));
                        }
                    }
                    child.can_lend()
                },
                None => false,
            }
        } else {
            false
        };
        let right_can_lend = match self.child_at(index.saturating_add(1)) {
            Some(child) => {
                proof {
                    assert(Node::<K, V, CAPACITY>::edge_ok(self.rightward@[index as int], h));
                }
                child.can_lend()
            },
            None => false,
        };
        proof {
            if index > 0 {
                if index > 1 {
                    assert(Node::<K, V, CAPACITY>::edge_ok(self.rightward@[index - 2], h));
                }
            }
            if index < self.rightward@.len() {
                assert(Node::<K, V, CAPACITY>::edge_ok(self.rightward@[index as int], h));
            }
        }
        if left_can_lend {
            self.borrow_from_left(index - 1);
        } else if right_can_lend {
            self.borrow_from_right(index);
        } else if index > 0 {
            self.merge_children(index - 1, Ghost(index as int));
        } else {
            self.merge_children(0, Ghost(index as int));
        }
    }

    fn set_separator(&mut self, child_index: usize, key: K)
        requires
            0 < child_index <= old(self).rightward@.len(),
        ensures
            final(self).leftmost == old(self).leftmost,
            final(self).rightward@ == old(self).rightward@.update(
                child_index - 1,
                BranchEdge { lower_bound: key, child: old(self).rightward@[child_index - 1].child },
            ),
            final(self).entries() == old(self).entries(),
    {
        let ghost old_self = *self;
        let edge = &mut self.rightward[child_index - 1];
        edge.lower_bound = key;
        proof {
            lemma_edges_entries_same_children(
                self.rightward@,
                old_self.rightward@,
                self.rightward@.len() as nat,
            );
        }
    }

    fn apply_underflow_minimum(&mut self, child_index: ChildIndex, minimum: MinimumChange<K>)
        requires
            capacity_ok::<CAPACITY>(),
            old(self).pending_child(child_index.0 as int),
            child_index.0 > 0 ==> separator_pending::<K, V>(
                old(self).rightward@[child_index.0 - 1].lower_bound@,
                old(self).child(child_index.0 as int).entries(),
                minimum,
            ),
        ensures
            final(self).pending_child(child_index.0 as int),
            final(self).separator_fixed(child_index.0 as int),
            final(self).child(child_index.0 as int) == old(self).child(child_index.0 as int),
            final(self).entries() == old(self).entries(),
            final(self).rightward@.len() == old(self).rightward@.len(),
            final(self).leftmost == old(self).leftmost,
            forall|j: int|
                0 <= j <= old(self).rightward@.len() ==> #[trigger] final(self).child(j) == old(
                    self,
                ).child(j),
    {
        let ghost old_self = *self;
        let ghost h = old_self.leftmost.height();
        match minimum {
            MinimumChange::Changed(changed) => {
                if child_index.get() == 0 {
                    let _changed = changed;
                } else {
                    self.set_separator(child_index.get(), changed);
                    proof {
                        assert forall|j: int| 0 <= j <= self.rightward@.len() implies #[trigger] self.child(
                            j,
                        ) == old_self.child(j) by {
                            if j > 0 {
                                assert(self.rightward@[j - 1].child == old_self.rightward@[j - 1].child);
                            }
                        }
                        assert forall|i: int| 0 <= i < self.rightward@.len() implies Node::<K, V, CAPACITY>::edge_loose(
                            #[trigger] self.rightward@[i],
                            h,
                        ) by {
                            assert(self.rightward@[i].child == old_self.rightward@[i].child);
                            assert(Node::<K, V, CAPACITY>::edge_loose(old_self.rightward@[i], h));
                        }
                        assert forall|i: int|
                            0 <= i < self.rightward@.len() && i + 1 != child_index.0 implies Node::<
                            K,
                            V,
                            CAPACITY,
                        >::edge_ok(#[trigger] self.rightward@[i], h) by {
                            assert(self.rightward@[i] == old_self.rightward@[i]);
                            assert(Node::<K, V, CAPACITY>::edge_ok(old_self.rightward@[i], h));
                        }
                    }
                }
            },
            _ => {},
        }
    }

    fn apply_stable_minimum(&mut self, child_index: ChildIndex, minimum: MinimumChange<K>)
        requires
            capacity_ok::<CAPACITY>(),
            old(self).pending_child(child_index.0 as int),
            !old(self).child(child_index.0 as int).underfull(),
            child_index.0 > 0 ==> separator_pending::<K, V>(
                old(self).rightward@[child_index.0 - 1].lower_bound@,
                old(self).child(child_index.0 as int).entries(),
                minimum,
            ),
        ensures
            final(self).inv(),
            final(self).entries() == old(self).entries(),
            final(self).rightward@.len() == old(self).rightward@.len(),
            final(self).height() == old(self).height(),
            forall|j: int|
                0 <= j <= old(self).rightward@.len() ==> #[trigger] final(self).child(j) == old(
                    self,
                ).child(j),
    {
        let ghost old_self = *self;
        let ghost h = self.leftmost.height();
        let ghost p = child_index.0 as int;
        match minimum {
            MinimumChange::Unchanged => {},
            MinimumChange::Changed(changed) => {
                if child_index.get() > 0 {
                    self.set_separator(child_index.get(), changed);
                } else {
                    let _changed = changed;
                }
            },
            MinimumChange::Removed => {
                proof {
                    if p > 0 {
                        assert(Node::<K, V, CAPACITY>::edge_loose(self.rightward@[p - 1], h));
                    }
                    assert forall|i: int| 0 <= i < self.rightward@.len() implies (#[trigger] self.rightward@[i]).child.inv()
                        && self.rightward@[i].child.entries().len() > 0 by {
                        assert(Node::<K, V, CAPACITY>::edge_loose(self.rightward@[i], h));
                    }
                }
                self.refresh_separators();
            },
        }
        proof {
            assert forall|j: int| 0 <= j <= self.rightward@.len() implies #[trigger] self.child(j)
                == old_self.child(j) by {
                if j > 0 {
                    assert(self.rightward@[j - 1].child == old_self.rightward@[j - 1].child);
                }
            }
            assert forall|i: int| 0 <= i < self.rightward@.len() implies Node::<K, V, CAPACITY>::edge_ok(
                #[trigger] self.rightward@[i],
                self.leftmost.height(),
            ) by {
                if i + 1 == p {
                    assert(Node::<K, V, CAPACITY>::edge_loose(self.rightward@[i], h));
                } else {
                    assert(Node::<K, V, CAPACITY>::edge_loose(self.rightward@[i], h));
                }
            }
        }
    }
}


impl<K: OrderedKey> MinimumChange<K> {
    /// Classifies how a subtree's minimum key changed.
    pub fn between(previous: Option<K>, current: Option<&K>) -> (change: Self)
        ensures
            match change {
                MinimumChange::Unchanged => (previous is None && current is None) || (previous matches Some(
                    p,
                ) && current matches Some(c) && p@ == c@),
                MinimumChange::Changed(key) => current matches Some(c) && key@ == c@ && (previous is None
                    || previous.unwrap()@ != c@),
                MinimumChange::Removed => previous is Some && current is None,
            },
    {
        match previous {
            Some(previous) => match current {
                Some(current) => match previous.compare(current) {
                    KeyOrder::Equal => Self::Unchanged,
                    _ => Self::Changed(current.duplicate()),
                },
                None => Self::Removed,
            },
            None => match current {
                Some(current) => Self::Changed(current.duplicate()),
                None => Self::Unchanged,
            },
        }
    }
}

impl<K: OrderedKey, V, const CAPACITY: usize> BranchNode<K, V, CAPACITY> {
    pub fn absorb_child_removal(&mut self, child_index: ChildIndex, occupancy: OccupancyChange<K>)
        requires
            capacity_ok::<CAPACITY>(),
            old(self).pending_child(child_index.0 as int),
            match occupancy {
                OccupancyChange::Stable { minimum } => {
                    &&& !old(self).child(child_index.0 as int).underfull()
                    &&& child_index.0 > 0 ==> separator_pending::<K, V>(
                        old(self).rightward@[child_index.0 - 1].lower_bound@,
                        old(self).child(child_index.0 as int).entries(),
                        minimum,
                    )
                },
                OccupancyChange::Underflow { minimum } => {
                    &&& old(self).child(child_index.0 as int).underfull()
                    &&& child_index.0 > 0 ==> separator_pending::<K, V>(
                        old(self).rightward@[child_index.0 - 1].lower_bound@,
                        old(self).child(child_index.0 as int).entries(),
                        minimum,
                    )
                },
            },
        ensures
            final(self).inv(),
            final(self).entries() == old(self).entries(),
            final(self).rightward@.len() + 1 == old(self).rightward@.len() || final(self).rightward@.len()
                == old(self).rightward@.len(),
            final(self).height() == old(self).height(),
            occupancy is Underflow ==> Self::rebalanced(*old(self), *final(self), child_index.0 as int),
            occupancy is Stable ==> final(self).rightward@.len() == old(self).rightward@.len() && forall|
                j: int,
            | 0 <= j <= old(self).rightward@.len() ==> #[trigger] final(self).child(j) == old(self).child(j),
    {
        match occupancy {
            OccupancyChange::Stable { minimum } => {
                self.apply_stable_minimum(child_index, minimum);
            },
            OccupancyChange::Underflow { minimum } => {
                self.apply_underflow_minimum(child_index, minimum);
                self.rebalance_child(child_index.get());
                proof {
                    assert forall|i: int| 0 <= i < self.rightward@.len() implies (#[trigger] self.rightward@[i]).child.inv()
                        && self.rightward@[i].child.entries().len() > 0 by {
                        assert(Node::<K, V, CAPACITY>::edge_ok(self.rightward@[i], self.leftmost.height()));
                    }
                }
                let ghost balanced = *self;
                self.refresh_separators();
                proof {
                    assert forall|i: int| 0 <= i < self.rightward@.len() implies Node::<K, V, CAPACITY>::edge_ok(
                        #[trigger] self.rightward@[i],
                        self.leftmost.height(),
                    ) by {
                        assert(Node::<K, V, CAPACITY>::edge_ok(balanced.rightward@[i], balanced.leftmost.height()));
                    }
                    assert forall|j: int| 0 <= j <= self.rightward@.len() implies #[trigger] self.child(j)
                        == balanced.child(j) by {
                        if j > 0 {
                            assert(self.rightward@[j - 1].child == balanced.rightward@[j - 1].child);
                        }
                    }
                }
            },
        }
    }

    fn remove(&mut self, key: &K) -> (removal: Removal<V>)
        requires
            capacity_ok::<CAPACITY>(),
            old(self).inv(),
            old(self).rightward@.len() >= 1,
        ensures
            final(self).inv(),
            final(self).height() == old(self).height(),
            match removal {
                Removal::Missing => {
                    &&& absent::<K, V>(old(self).entries(), key@)
                    &&& final(self).entries() == old(self).entries()
                    &&& final(self).rightward@.len() == old(self).rightward@.len()
                    &&& Node::Branch(*old(self)).same_tree(Node::Branch(*final(self)))
                },
                Removal::Removed(value) => {
                    &&& exists|i: int|
                        removed_at::<K, V>(old(self).entries(), final(self).entries(), key@, i) && value
                            == old(self).entries()[i].1
                    &&& final(self).rightward@.len() + 1 == old(self).rightward@.len()
                        || final(self).rightward@.len() == old(self).rightward@.len()
                    &&& Self::removal_shape(*old(self), *final(self), key@)
                },
            },
        decreases old(self).height(), 0nat,
    {
        let ghost old_self = *self;
        let ghost h = old_self.leftmost.height();
        let child_index = self.child_position(key);
        let ghost p = child_index.0 as int;
        let ghost before = old_self.before(p);
        let ghost after = old_self.after(p);
        let ghost old_child = old_self.child(p);
        proof {
            old_self.lemma_route(p, key@);
            old_self.lemma_split_at(p);
            old_self.lemma_child(p);
            lemma_lookup_middle::<K, V>(before, old_child.entries(), after, key@);
        }
        let child = self.child_at_position_mut(child_index);
        let child_result = child.remove(key);
        let ghost new_child = *child;
        proof {
            Self::lemma_child_replaced_entries(old_self, *self, p, new_child);
        }
        proof {
            Self::lemma_child_removal(old_self, *self, p, new_child, key@, child_result);
        }
        match child_result {
            RemoveResult::Missing => {
                proof {
                    Self::lemma_child_replaced_same(old_self, *self, p, new_child);
                }
                Removal::Missing
            },
            RemoveResult::Removed { value, occupancy } => {
                let ghost middle = *self;
                self.absorb_child_removal(child_index, occupancy);
                proof {
                    assert(middle.child(p) == new_child);
                    assert(Self::removed_through(old_self, middle, *self, p, key@));
                }
                Removal::Removed(value)
            },
        }
    }

    /// The state of a branch after a removal from the child at `position`.
    proof fn lemma_child_removal(
        old: Self,
        new: Self,
        position: int,
        child: Node<K, V, CAPACITY>,
        key: K::V,
        result: RemoveResult<K, V>,
    )
        requires
            capacity_ok::<CAPACITY>(),
            old.inv(),
            old.rightward@.len() >= 1,
            old.routes_to(position, key),
            Self::child_replaced(old, new, position, child),
            Node::remove_post(old.child(position), child, key, result),
        ensures
            result is Missing ==> new.inv(),
            result is Missing ==> new.height() == old.height(),
            result is Missing ==> absent::<K, V>(old.entries(), key),
            result is Missing ==> new.entries() == old.entries(),
            result is Missing ==> new.rightward@.len() == old.rightward@.len(),
            result matches RemoveResult::Removed { value, occupancy } ==> {
                &&& new.pending_child(position)
                &&& new.height() == old.height()
                &&& new.rightward@.len() == old.rightward@.len()
                &&& exists|i: int|
                    removed_at::<K, V>(old.entries(), new.entries(), key, i) && value
                        == old.entries()[i].1
                &&& match occupancy {
                    OccupancyChange::Stable { minimum } => {
                        &&& !new.child(position).underfull()
                        &&& position > 0 ==> separator_pending::<K, V>(
                            new.rightward@[position - 1].lower_bound@,
                            new.child(position).entries(),
                            minimum,
                        )
                    },
                    OccupancyChange::Underflow { minimum } => {
                        &&& new.child(position).underfull()
                        &&& position > 0 ==> separator_pending::<K, V>(
                            new.rightward@[position - 1].lower_bound@,
                            new.child(position).entries(),
                            minimum,
                        )
                    },
                }
            },
    {
        let p = position;
        let h = old.leftmost.height();
        let before = old.before(p);
        let after = old.after(p);
        let old_child = old.child(p);
        old.lemma_route(p, key);
        old.lemma_split_at(p);
        old.lemma_child(p);
        lemma_lookup_middle::<K, V>(before, old_child.entries(), after, key);
        Self::lemma_child_replaced_entries(old, new, p, child);
        match result {
            RemoveResult::Missing => {
                assert(new.entries() == old.entries());
                assert(child.size() == old_child.size());
                Self::lemma_child_replaced_inv(old, new, p, child);
                assert(absent::<K, V>(old_child.entries(), key));
                assert(absent::<K, V>(before + old_child.entries() + after, key));
                assert(new.rightward@.len() == old.rightward@.len());
                assert(new.height() == old.height());
                assert(new.inv());
                assert(absent::<K, V>(old.entries(), key));
            },
            RemoveResult::Removed { value, occupancy } => {
                let ci = choose|i: int|
                    removed_at::<K, V>(old_child.entries(), child.entries(), key, i) && value
                        == old_child.entries()[i].1;
                let index = before.len() + ci;
                assert(new.entries() =~= old.entries().remove(index));
                assert(old.entries()[index] == old_child.entries()[ci]);
                assert(removed_at::<K, V>(old.entries(), new.entries(), key, index));
                lemma_sorted_remove::<K, V>(old.entries(), index);
                child.lemma_nonempty_relaxed();
                assert forall|i: int| 0 <= i < new.rightward@.len() implies Node::<K, V, CAPACITY>::edge_loose(
                    #[trigger] new.rightward@[i],
                    new.leftmost.height(),
                ) by {
                    if i + 1 != p {
                        assert(new.rightward@[i] == old.rightward@[i]);
                        assert(Node::<K, V, CAPACITY>::edge_ok(old.rightward@[i], h));
                    }
                }
                assert forall|i: int| 0 <= i < new.rightward@.len() && i + 1 != p implies Node::<
                    K,
                    V,
                    CAPACITY,
                >::edge_ok(#[trigger] new.rightward@[i], new.leftmost.height()) by {
                    assert(new.rightward@[i] == old.rightward@[i]);
                    assert(Node::<K, V, CAPACITY>::edge_ok(old.rightward@[i], h));
                }
                assert(new.child(p) == child);
                if p > 0 {
                    assert(new.rightward@[p - 1].lower_bound == old.rightward@[p - 1].lower_bound);
                    assert(Node::<K, V, CAPACITY>::edge_ok(old.rightward@[p - 1], h));
                }
                assert(child.size() + 1 >= child.min_size());
                assert(sorted::<K, V>(new.entries()));
                old.lemma_child(0);
                match occupancy {
                    OccupancyChange::Stable { minimum } => {
                        assert(p > 0 ==> separator_pending::<K, V>(
                            new.rightward@[p - 1].lower_bound@,
                            new.child(p).entries(),
                            minimum,
                        ));
                    },
                    OccupancyChange::Underflow { minimum } => {
                        assert(p > 0 ==> separator_pending::<K, V>(
                            new.rightward@[p - 1].lower_bound@,
                            new.child(p).entries(),
                            minimum,
                        ));
                    },
                }
            },
        }
    }
}

impl<K: OrderedKey, V, const CAPACITY: usize> Node<K, V, CAPACITY> {
    /// Removes from this subtree and reports occupancy changes.
    pub fn remove(&mut self, key: &K) -> (result: RemoveResult<K, V>)
        requires
            capacity_ok::<CAPACITY>(),
            old(self).inv(),
            old(self).stable_shape(),
        ensures
            Node::remove_post(*old(self), *final(self), key@, result),
        decreases old(self).height(), 1nat,
    {
        let removal = match self {
            Self::Leaf(leaf) => leaf.remove(key),
            Self::Branch(branch) => branch.remove(key),
        };
        match removal {
            Removal::Missing => {
                proof {
                    if *self is Leaf {
                        self.lemma_same_tree_reflexive();
                    }
                }
                RemoveResult::Missing
            },
            Removal::Removed(value) => {
                proof {
                    if *self is Leaf {
                        let i = choose|i: int|
                            removed_at::<K, V>(old(self).entries(), self.entries(), key@, i);
                        lemma_sorted_remove::<K, V>(old(self).entries(), i);
                    }
                }
                let ghost before = old(self).entries();
                let ghost after = self.entries();
                let ghost i = choose|i: int| removed_at::<K, V>(before, after, key@, i);
                let minimum = match self.minimum_key() {
                    None => MinimumChange::Removed,
                    Some(current) => match key.compare(current) {
                        KeyOrder::Less => {
                            proof {
                                if i > 0 {
                                    assert(after[0] == before[0]);
                                    assert(K::less(before[0].0, before[i].0));
                                }
                            }
                            MinimumChange::Changed(current.duplicate())
                        },
                        _ => {
                            proof {
                                if i == 0 {
                                    assert(after[0] == before[1]);
                                    assert(K::less(before[0].0, before[1].0));
                                } else {
                                    assert(after[0] == before[0]);
                                }
                            }
                            MinimumChange::Unchanged
                        },
                    },
                };
                let occupancy = if self.is_underfull() {
                    OccupancyChange::Underflow { minimum }
                } else {
                    OccupancyChange::Stable { minimum }
                };
                RemoveResult::Removed { value, occupancy }
            },
        }
    }

    /// Collapses transient one-child branches at the root.
    /// The node with each top branch of one child replaced by that child.
    pub open spec fn collapsed(self) -> Self
        decreases self,
    {
        match self {
            Node::Branch(branch) => if branch.rightward@.len() == 0 {
                branch.leftmost.collapsed()
            } else {
                self
            },
            Node::Leaf(_) => self,
        }
    }

    pub fn normalize_root(&mut self)
        requires
            capacity_ok::<CAPACITY>(),
            old(self).inv(),
        ensures
            final(self).root_inv(),
            final(self).entries() == old(self).entries(),
            *final(self) == old(self).collapsed(),
    {
        loop
            invariant
                capacity_ok::<CAPACITY>(),
                self.inv(),
                self.entries() == old(self).entries(),
                self.collapsed() == old(self).collapsed(),
            decreases self.height(),
        {
            match self {
                Self::Leaf(_leaf) => return,
                Self::Branch(branch) => {
                    if branch.child_count() != 1 {
                        return;
                    }
                    let ghost collapsed = *branch.leftmost;
                    proof {
                        assert(branch.rightward@ =~= Seq::empty());
                        assert(Node::<K, V, CAPACITY>::edges_entries(branch.rightward@, 0) =~= Seq::empty());
                        assert(branch.entries() =~= collapsed.entries());
                    }
                    let mut child = Box::new(Self::empty_leaf());
                    std::mem::swap(&mut branch.leftmost, &mut child);
                    *self = *child;
                },
            }
        }
    }
}


// ---------------------------------------------------------------------------
// Mutable lookup
// ---------------------------------------------------------------------------

/// The position of the entry for `key`, when there is one.
pub open spec fn key_index<K: OrderedKey, V>(s: Seq<(K::V, V)>, key: K::V) -> int {
    choose|i: int| 0 <= i < s.len() && s[i].0 == key
}

/// In a sorted sequence, the entry for a key is unique.
pub proof fn lemma_key_index<K: OrderedKey, V>(s: Seq<(K::V, V)>, key: K::V, i: int)
    requires
        sorted::<K, V>(s),
        0 <= i < s.len(),
        s[i].0 == key,
    ensures
        key_index::<K, V>(s, key) == i,
{
    let j = key_index::<K, V>(s, key);
    assert(0 <= j < s.len() && s[j].0 == key);
    if j < i {
        assert(K::less(s[j].0, s[i].0));
    } else if j > i {
        assert(K::less(s[i].0, s[j].0));
    }
}

/// The sequence with the value of the entry at `index` replaced, its key kept.
pub open spec fn value_updated<K: OrderedKey, V>(s: Seq<(K::V, V)>, index: int, value: V) -> Seq<(K::V, V)> {
    s.update(index, (s[index].0, value))
}

impl<K: OrderedKey, V, const CAPACITY: usize> BranchNode<K, V, CAPACITY> {
    /// What a branch becomes when a value of its child at `position`, at
    /// `child_index`, is replaced, whatever the new value.
    proof fn lemma_child_value_updates(self, position: int, child_index: int)
        requires
            capacity_ok::<CAPACITY>(),
            self.inv(),
            0 <= position <= self.rightward@.len(),
            0 <= child_index < self.child(position).entries().len(),
        ensures
            forall|new: Self, child: Node<K, V, CAPACITY>, value: V|
                #[trigger] Self::child_replaced(self, new, position, child) && child.inv() && child.height()
                    == self.child(position).height() && child.size() == self.child(position).size()
                    && child.entries() == #[trigger] value_updated::<K, V>(
                    self.child(position).entries(),
                    child_index,
                    value,
                ) ==> new.inv() && new.height() == self.height() && new.rightward@.len()
                    == self.rightward@.len() && new.entries() == value_updated::<K, V>(
                    self.entries(),
                    self.before(position).len() + child_index,
                    value,
                ),
            forall|new: Self, child: Node<K, V, CAPACITY>|
                #[trigger] Self::child_replaced(self, new, position, child) && child.inv() && child.height()
                    == self.child(position).height() && child.size() == self.child(position).size()
                    && child.entries() == self.child(position).entries() ==> new.inv() && new.height()
                    == self.height() && new.rightward@.len() == self.rightward@.len() && new.entries()
                    == self.entries(),
    {
        let old_child = self.child(position);
        let before = self.before(position);
        let after = self.after(position);
        self.lemma_split_at(position);
        self.lemma_child(position);
        assert forall|new: Self, child: Node<K, V, CAPACITY>, value: V|
            #[trigger] Self::child_replaced(self, new, position, child) && child.inv() && child.height()
                == old_child.height() && child.size() == old_child.size() && child.entries()
                == #[trigger] value_updated::<K, V>(old_child.entries(), child_index, value) implies new.inv()
            && new.height() == self.height() && new.rightward@.len() == self.rightward@.len()
            && new.entries() == value_updated::<K, V>(self.entries(), before.len() + child_index, value) by {
            Self::lemma_child_replaced_entries(self, new, position, child);
            assert(new.entries() =~= value_updated::<K, V>(
                self.entries(),
                before.len() + child_index,
                value,
            ));
            assert(self.entries()[before.len() + child_index] == old_child.entries()[child_index]);
            lemma_sorted_update_value::<K, V>(
                self.entries(),
                new.entries(),
                old_child.entries()[child_index].0,
                value,
                before.len() + child_index,
            );
            if position > 0 {
                assert(child.entries()[0].0 == old_child.entries()[0].0);
            }
            Self::lemma_child_replaced_inv(self, new, position, child);
        }
        assert forall|new: Self, child: Node<K, V, CAPACITY>|
            #[trigger] Self::child_replaced(self, new, position, child) && child.inv() && child.height()
                == old_child.height() && child.size() == old_child.size() && child.entries()
                == old_child.entries() implies new.inv() && new.height() == self.height()
            && new.rightward@.len() == self.rightward@.len() && new.entries() == self.entries() by {
            Self::lemma_child_replaced_entries(self, new, position, child);
            Self::lemma_child_replaced_inv(self, new, position, child);
        }
    }
}

impl<K: OrderedKey, V, const CAPACITY: usize> Node<K, V, CAPACITY> {
    /// Finds a mutable value by its key.
    pub fn get_mut(&mut self, key: &K) -> (value: Option<&mut V>)
        requires
            capacity_ok::<CAPACITY>(),
            old(self).inv(),
        ensures
            match value {
                Some(value) => {
                    let i = key_index::<K, V>(old(self).entries(), key@);
                    &&& 0 <= i < old(self).entries().len()
                    &&& old(self).entries()[i] == (key@, *value)
                    &&& final(self).entries() == value_updated::<K, V>(old(self).entries(), i, *final(value))
                },
                None => absent::<K, V>(old(self).entries(), key@) && final(self).entries() == old(
                    self,
                ).entries(),
            },
            final(self).inv(),
            final(self).height() == old(self).height(),
            final(self).size() == old(self).size(),
        decreases old(self).height(),
    {
        match self {
            Self::Leaf(leaf) => {
                let ghost old_pairs = leaf.pairs();
                proof {
                    assert forall|other: LeafNode<K, V, CAPACITY>, i: int, v: V|
                        #![trigger other.pairs(), old_pairs.update(i, (key@, v))]
                        0 <= i < old_pairs.len() && other.pairs() == old_pairs.update(i, (key@, v))
                            && old_pairs[i].0 == key@ implies Node::Leaf(other).inv() && other.pairs()
                        == value_updated::<K, V>(old_pairs, i, v) && key_index::<K, V>(old_pairs, key@)
                        == i by {
                        lemma_sorted_update_value::<K, V>(old_pairs, other.pairs(), key@, v, i);
                        lemma_key_index::<K, V>(old_pairs, key@, i);
                        assert(other.pairs().len() == old_pairs.len());
                    }
                }
                leaf.get_mut(key)
            },
            Self::Branch(branch) => {
                let ghost old_branch = *branch;
                let position = branch.child_position(key);
                let ghost p = position.0 as int;
                let ghost before = old_branch.before(p);
                let ghost after = old_branch.after(p);
                let ghost old_child = old_branch.child(p);
                proof {
                    old_branch.lemma_route(p, key@);
                    old_branch.lemma_split_at(p);
                    old_branch.lemma_child(p);
                    lemma_lookup_middle::<K, V>(before, old_child.entries(), after, key@);
                    let ci = key_index::<K, V>(old_child.entries(), key@);
                    if exists|j: int| 0 <= j < old_child.entries().len() && old_child.entries()[j].0 == key@ {
                        let j = choose|j: int|
                            0 <= j < old_child.entries().len() && old_child.entries()[j].0 == key@;
                        lemma_key_index::<K, V>(old_child.entries(), key@, j);
                        assert(old_branch.entries()[before.len() + j] == old_child.entries()[j]);
                        lemma_key_index::<K, V>(old_branch.entries(), key@, before.len() + j);
                        old_branch.lemma_child_value_updates(p, j);
                    } else {
                        old_branch.lemma_child_value_updates(p, 0);
                    }
                }
                let child = branch.child_at_position_mut(position);
                child.get_mut(key)
            },
        }
    }
}


// ---------------------------------------------------------------------------
// Traversal helpers
// ---------------------------------------------------------------------------

impl<K: OrderedKey, V, const CAPACITY: usize> BranchNode<K, V, CAPACITY> {
    pub fn first_key_value(&self) -> (pair: Option<(&K, &V)>)
        requires
            capacity_ok::<CAPACITY>(),
            self.inv(),
        ensures
            pair matches Some((key, value)) && self.entries().len() > 0 && (key@, *value)
                == self.entries()[0],
        decreases self.height(), 0nat,
    {
        proof {
            self.lemma_child(0);
            self.lemma_split_at(0);
        }
        self.leftmost.first_key_value()
    }

    pub fn last_key_value(&self) -> (pair: Option<(&K, &V)>)
        requires
            capacity_ok::<CAPACITY>(),
            self.inv(),
        ensures
            pair matches Some((key, value)) && self.entries().len() > 0 && (key@, *value)
                == self.entries().last(),
        decreases self.height(), 0nat,
    {
        let last = self.rightward.len();
        proof {
            self.lemma_child(last as int);
            self.lemma_split_at(last as int);
            assert(self.rightward@.skip(last as int) =~= Seq::empty());
            assert(Node::<K, V, CAPACITY>::edges_entries(Seq::empty(), 0) =~= Seq::empty());
        }
        self.rightmost_child().last_key_value()
    }

    /// Moves the entries of every child, in order, to the end of a buffer.
    pub fn append_owned_entries(self, entries: &mut Vec<(K, V)>)
        requires
            capacity_ok::<CAPACITY>(),
            self.inv(),
        ensures
            owned_pairs(final(entries)@) == owned_pairs(old(entries)@) + self.entries(),
        decreases self.height(), 0nat,
    {
        let ghost start = owned_pairs(entries@);
        let ghost edges = self.rightward@;
        let ghost h = self.leftmost.height();
        let ghost all = self.entries();
        let ghost top = self.height();
        let BranchNode { leftmost, rightward } = self;
        leftmost.append_owned_entries(entries);
        let mut source = rightward;
        let total = source.len();
        let mut reversed: Vec<BranchEdge<K, V, CAPACITY>> = Vec::new();
        while source.len() > 0
            invariant
                source@.len() + reversed@.len() == total,
                total == edges.len(),
                source@ == edges.take(source@.len() as int),
                forall|i: int| 0 <= i < reversed@.len() ==> #[trigger] reversed@[i] == edges[total - 1 - i],
            decreases source@.len(),
        {
            let edge = source.pop().unwrap();
            proof {
                assert(source@ =~= edges.take(source@.len() as int));
            }
            reversed.push(edge);
        }
        let mut taken: usize = 0;
        while reversed.len() > 0
            invariant
                capacity_ok::<CAPACITY>(),
                reversed@.len() + taken == total,
                total == edges.len(),
                forall|i: int| 0 <= i < reversed@.len() ==> #[trigger] reversed@[i] == edges[total - 1 - i],
                forall|i: int| 0 <= i < edges.len() ==> Node::<K, V, CAPACITY>::edge_ok(#[trigger] edges[i], h),
                owned_pairs(entries@) == start + leftmost.entries() + Node::<K, V, CAPACITY>::edges_entries(
                    edges,
                    taken as nat,
                ),
                top == h + 1,
                top == self.height(),
            decreases reversed@.len(),
        {
            let edge = reversed.pop().unwrap();
            proof {
                assert(edge == edges[taken as int]);
                assert(Node::<K, V, CAPACITY>::edge_ok(edge, h));
            }
            edge.child.append_owned_entries(entries);
            taken = taken + 1;
            proof {
                assert(owned_pairs(entries@) =~= start + leftmost.entries() + Node::<K, V, CAPACITY>::edges_entries(
                    edges,
                    taken as nat,
                ));
            }
        }
    }

    /// Builds a branch from a leftmost child and separator-child pairs in order.
    pub fn from_sorted_parts(
        leftmost: Node<K, V, CAPACITY>,
        first_right: (K, Node<K, V, CAPACITY>),
        remaining: Vec<(K, Node<K, V, CAPACITY>)>,
    ) -> (branch: Self)
        ensures
            *branch.leftmost == leftmost,
            branch.rightward@.len() == remaining@.len() + 1,
            branch.rightward@[0].lower_bound == first_right.0,
            *branch.rightward@[0].child == first_right.1,
            forall|i: int|
                0 <= i < remaining@.len() ==> (#[trigger] branch.rightward@[i + 1]).lower_bound
                    == remaining@[i].0 && *branch.rightward@[i + 1].child == remaining@[i].1,
    {
        let (lower_bound, child) = first_right;
        let mut rightward: Vec<BranchEdge<K, V, CAPACITY>> = Vec::new();
        rightward.push(BranchEdge::from_node(lower_bound, child));
        let ghost parts = remaining@;
        let mut source = remaining;
        let total = source.len();
        let mut reversed: Vec<(K, Node<K, V, CAPACITY>)> = Vec::new();
        while source.len() > 0
            invariant
                source@.len() + reversed@.len() == total,
                total == parts.len(),
                source@ == parts.take(source@.len() as int),
                forall|i: int| 0 <= i < reversed@.len() ==> #[trigger] reversed@[i] == parts[total - 1 - i],
            decreases source@.len(),
        {
            let part = source.pop().unwrap();
            proof {
                assert(source@ =~= parts.take(source@.len() as int));
            }
            reversed.push(part);
        }
        while reversed.len() > 0
            invariant
                reversed@.len() + rightward@.len() == total + 1,
                total == parts.len(),
                forall|i: int| 0 <= i < reversed@.len() ==> #[trigger] reversed@[i] == parts[total - 1 - i],
                rightward@.len() >= 1,
                rightward@[0].lower_bound == first_right.0,
                *rightward@[0].child == first_right.1,
                forall|i: int|
                    0 <= i < rightward@.len() - 1 ==> (#[trigger] rightward@[i + 1]).lower_bound == parts[i].0
                        && *rightward@[i + 1].child == parts[i].1,
            decreases reversed@.len(),
        {
            let (lower_bound, child) = reversed.pop().unwrap();
            rightward.push(BranchEdge::from_node(lower_bound, child));
        }
        Self { leftmost: Box::new(leftmost), rightward }
    }

    /// `capacity` is the saturating sum of one total per child, each of which
    /// is saturated or covers that child's entries.
    pub open spec fn sums_child_capacities(self, capacity: int) -> bool {
        exists|child_capacities: Seq<usize>|
            {
                &&& child_capacities.len() == self.rightward@.len() + 1
                &&& forall|i: int|
                    0 <= i < child_capacities.len() ==> #[trigger] child_capacities[i] == usize::MAX
                        || child_capacities[i] >= self.child(i).entries().len()
                &&& capacity == saturated(capacity_sum(child_capacities))
            }
    }

    /// Total allocated entry slots of the leaves: the saturating sum of the
    /// children's totals, each of which covers that child's entries.
    pub fn allocated_entry_capacity(&self) -> (capacity: usize)
        requires
            capacity_ok::<CAPACITY>(),
            self.inv(),
        ensures
            capacity == usize::MAX || capacity >= self.entries().len(),
            self.sums_child_capacities(capacity as int),
        decreases self.height(), 0nat,
    {
        proof {
            self.lemma_child(0);
            self.lemma_before_step(0);
        }
        let mut capacities: Vec<usize> = Vec::new();
        capacities.push(self.leftmost.allocated_entry_capacity());
        proof {
            assert(capacities@.drop_last() =~= Seq::<usize>::empty());
            assert(capacity_sum(Seq::<usize>::empty()) == 0);
            assert(capacity_sum(capacities@) == capacities@[0]);
        }
        let mut index: usize = 0;
        while index < self.rightward.len()
            invariant
                capacity_ok::<CAPACITY>(),
                self.inv(),
                index <= self.rightward@.len(),
                capacities@.len() == index + 1,
                forall|i: int|
                    0 <= i < capacities@.len() ==> #[trigger] capacities@[i] == usize::MAX
                        || capacities@[i] >= self.child(i).entries().len(),
                capacity_sum(capacities@) >= usize::MAX || capacity_sum(capacities@) >= self.before(
                    index + 1,
                ).len(),
            decreases self.rightward@.len() - index,
        {
            proof {
                self.lemma_child(index + 1);
                self.lemma_before_step(index + 1);
            }
            let ghost previous = capacities@;
            capacities.push(self.rightward[index].child.allocated_entry_capacity());
            proof {
                assert(capacities@.drop_last() =~= previous);
                assert(capacity_sum(capacities@) == capacity_sum(previous) + capacities@[index as int + 1]);
            }
            index = index + 1;
        }
        proof {
            let count = self.rightward@.len() as int;
            self.lemma_split_at(count);
            self.lemma_before_step(count);
            assert(self.rightward@.skip(count) =~= Seq::empty());
            assert(Node::<K, V, CAPACITY>::all_edges_entries(Seq::empty()) =~= Seq::empty());
            assert(self.before(count + 1) =~= self.entries());
        }
        saturating_total(&capacities)
    }
}


impl<K: OrderedKey, V, const CAPACITY: usize> Node<K, V, CAPACITY> {
    /// Moves leaf entries into one ordered buffer, discarding branch separators.
    pub fn append_owned_entries(self, entries: &mut Vec<(K, V)>)
        requires
            capacity_ok::<CAPACITY>(),
            self.inv(),
        ensures
            owned_pairs(final(entries)@) == owned_pairs(old(entries)@) + self.entries(),
        decreases self.height(), 1nat,
    {
        match self {
            Self::Leaf(leaf) => leaf.append_owned_entries(entries),
            Self::Branch(branch) => branch.append_owned_entries(entries),
        }
    }

    /// Total allocated entry slots of the leaves.
    pub fn allocated_entry_capacity(&self) -> (capacity: usize)
        requires
            capacity_ok::<CAPACITY>(),
            self.inv(),
        ensures
            capacity == usize::MAX || capacity >= self.entries().len(),
            self matches Node::Branch(branch) ==> branch.sums_child_capacities(capacity as int),
        decreases self.height(), 1nat,
    {
        match self {
            Self::Leaf(leaf) => leaf.allocated_entry_capacity(),
            Self::Branch(branch) => branch.allocated_entry_capacity(),
        }
    }

    pub fn from_sorted_branch(
        leftmost: Self,
        first_right: (K, Self),
        remaining: Vec<(K, Self)>,
    ) -> (node: Self)
        ensures
            node matches Node::Branch(branch) && *branch.leftmost == leftmost
                && branch.rightward@.len() == remaining@.len() + 1
                && branch.rightward@[0].lower_bound == first_right.0
                && *branch.rightward@[0].child == first_right.1
                && forall|i: int|
                0 <= i < remaining@.len() ==> (#[trigger] branch.rightward@[i + 1]).lower_bound
                    == remaining@[i].0 && *branch.rightward@[i + 1].child == remaining@[i].1,
    {
        Self::Branch(BranchNode::from_sorted_parts(leftmost, first_right, remaining))
    }

    /// Number of entries in the subtree.
    pub fn entry_count(&self) -> (count: usize)
        requires
            capacity_ok::<CAPACITY>(),
            self.inv(),
            self.entries().len() <= usize::MAX,
        ensures
            count == self.entries().len(),
        decreases self.height(), 1nat,
    {
        match self {
            Self::Leaf(leaf) => leaf.entry_count(),
            Self::Branch(branch) => branch.entry_count(),
        }
    }

    /// Number of levels below this node.
    pub fn height_levels(&self) -> (levels: usize)
        requires
            capacity_ok::<CAPACITY>(),
            self.inv(),
            self.height() <= usize::MAX,
        ensures
            levels == self.height(),
        decreases self.height(),
    {
        match self {
            Self::Leaf(_leaf) => 0,
            Self::Branch(branch) => branch.leftmost.height_levels() + 1,
        }
    }
}


impl<K: OrderedKey, V, const CAPACITY: usize> BranchNode<K, V, CAPACITY> {
    /// Number of entries in the children.
    pub fn entry_count(&self) -> (count: usize)
        requires
            capacity_ok::<CAPACITY>(),
            self.inv(),
            self.entries().len() <= usize::MAX,
        ensures
            count == self.entries().len(),
        decreases self.height(), 0nat,
    {
        proof {
            self.lemma_child(0);
            self.lemma_split_at(0);
            self.lemma_before_step(0);
            self.lemma_split_after(0);
        }
        let mut count = self.leftmost.entry_count();
        let mut index: usize = 0;
        while index < self.rightward.len()
            invariant
                capacity_ok::<CAPACITY>(),
                self.inv(),
                self.entries().len() <= usize::MAX,
                index <= self.rightward@.len(),
                count == self.before(index + 1).len(),
            decreases self.rightward@.len() - index,
        {
            proof {
                self.lemma_child(index + 1);
                self.lemma_before_step(index + 1);
                self.lemma_split_at(index + 1);
            }
            count = count + self.rightward[index].child.entry_count();
            index = index + 1;
        }
        proof {
            let m = self.rightward@.len() as int;
            self.lemma_split_at(m);
            self.lemma_before_step(m);
            assert(self.rightward@.skip(m) =~= Seq::empty());
            assert(Node::<K, V, CAPACITY>::edges_entries(Seq::empty(), 0) =~= Seq::empty());
        }
        count
    }
}

impl<K: OrderedKey, V, const CAPACITY: usize> LeafNode<K, V, CAPACITY> {
    /// Returns the stored key and value for a key.
    pub fn get_key_value(&self, key: &K) -> (pair: Option<(&K, &V)>)
        requires
            sorted::<K, V>(self.pairs()),
        ensures
            match pair {
                Some((stored, value)) => stored@ == key@ && has_entry::<K, V>(
                    self.pairs(),
                    key@,
                    *value,
                ),
                None => absent::<K, V>(self.pairs(), key@),
            },
    {
        match self.search(key) {
            SearchSlot::Occupied(index) => {
                let pair = self.entries[index.get()].as_pair();
                assert(self.pairs()[index.0 as int] == (key@, *pair.1));
                Some(pair)
            },
            SearchSlot::Vacant(_insertion_index) => None,
        }
    }
}

impl<K: OrderedKey, V, const CAPACITY: usize> Node<K, V, CAPACITY> {
    /// Returns the stored key and value for a key.
    pub fn get_key_value(&self, key: &K) -> (pair: Option<(&K, &V)>)
        requires
            capacity_ok::<CAPACITY>(),
            self.inv(),
        ensures
            match pair {
                Some((stored, value)) => stored@ == key@ && has_entry::<K, V>(
                    self.entries(),
                    key@,
                    *value,
                ),
                None => absent::<K, V>(self.entries(), key@),
            },
        decreases self.height(),
    {
        match self {
            Self::Leaf(leaf) => leaf.get_key_value(key),
            Self::Branch(branch) => {
                let child = branch.child_for_key(key);
                proof {
                    let position = choose|position: int|
                        branch.routes_to(position, key@) && *child == branch.child(position);
                    branch.lemma_route(position, key@);
                    branch.lemma_split_at(position);
                    branch.lemma_child(position);
                    lemma_lookup_middle::<K, V>(
                        branch.before(position),
                        child.entries(),
                        branch.after(position),
                        key@,
                    );
                }
                child.get_key_value(key)
            },
        }
    }
}

impl<K: OrderedKey, V, const CAPACITY: usize> Node<K, V, CAPACITY> {
    /// The same tree, node by node: equal leaf entries, and branches with the
    /// same separators over the same children.
    pub open spec fn same_tree(self, other: Self) -> bool
        decreases self, 0nat,
    {
        match (self, other) {
            (Node::Leaf(a), Node::Leaf(b)) => a.entries@ == b.entries@,
            (Node::Branch(a), Node::Branch(b)) => {
                &&& a.leftmost.same_tree(*b.leftmost)
                &&& a.rightward@.len() == b.rightward@.len()
                &&& forall|i: int|
                    0 <= i < a.rightward@.len() ==> Self::same_edge(
                        #[trigger] a.rightward@[i],
                        b.rightward@[i],
                    )
            },
            _ => false,
        }
    }

    /// The same separator over the same child.
    pub open spec fn same_edge(a: BranchEdge<K, V, CAPACITY>, b: BranchEdge<K, V, CAPACITY>) -> bool
        decreases a, 1nat,
    {
        a.lower_bound == b.lower_bound && a.child.same_tree(*b.child)
    }

    /// Every tree is the same tree as itself.
    pub proof fn lemma_same_tree_reflexive(self)
        ensures
            self.same_tree(self),
        decreases self,
    {
        if let Node::Branch(branch) = self {
            branch.leftmost.lemma_same_tree_reflexive();
            assert forall|i: int| 0 <= i < branch.rightward@.len() implies Self::same_edge(
                #[trigger] branch.rightward@[i],
                branch.rightward@[i],
            ) by {
                assert(decreases_to!(self => branch.rightward@[i].child));
                branch.rightward@[i].child.lemma_same_tree_reflexive();
            }
        }
    }
}

impl<K: OrderedKey, V, const CAPACITY: usize> BranchNode<K, V, CAPACITY> {
    /// Replacing a child by the same tree leaves the same branch.
    pub proof fn lemma_child_replaced_same(old: Self, new: Self, position: int, child: Node<K, V, CAPACITY>)
        requires
            Self::child_replaced(old, new, position, child),
            old.child(position).same_tree(child),
        ensures
            Node::Branch(old).same_tree(Node::Branch(new)),
    {
        if position == 0 {
            assert forall|i: int| 0 <= i < old.rightward@.len() implies Node::<K, V, CAPACITY>::same_edge(
                #[trigger] old.rightward@[i],
                new.rightward@[i],
            ) by {
                old.rightward@[i].child.lemma_same_tree_reflexive();
            }
        } else {
            old.leftmost.lemma_same_tree_reflexive();
            assert forall|i: int| 0 <= i < old.rightward@.len() implies Node::<K, V, CAPACITY>::same_edge(
                #[trigger] old.rightward@[i],
                new.rightward@[i],
            ) by {
                if i != position - 1 {
                    old.rightward@[i].child.lemma_same_tree_reflexive();
                }
            }
        }
    }
}

} // verus!
