//! Ordered traversal: cursors over the leaves, whole-tree and bounded iterators.
//!
//! A cursor holds the leaf it stands in, an entry position inside it, and the
//! branches above that leaf with the child taken at each. Its position among the
//! tree's entries is the number of entries before it.
use vstd::prelude::*;

use crate::key::group_key_order;
use crate::key::KeyOrder;
use crate::key::OrderedKey;
use crate::node::all_above;
use crate::node::all_below;
use crate::node::capacity_ok;
use crate::node::sorted;
use crate::node::BranchNode;
use crate::node::LeafNode;
use crate::node::Node;
use crate::node::SearchSlot;

verus! {

broadcast use group_key_order;

/// A bound of a key range.
#[derive(Clone, Copy, Debug, PartialEq, Eq)]
pub enum Bound<K> {
    /// The bound includes this key.
    Included(K),
    /// The bound excludes this key.
    Excluded(K),
    /// No bound.
    Unbounded,
}

/// Error returned when range bounds cannot describe an ordered interval.
#[derive(Clone, Copy, Debug, PartialEq, Eq)]
pub enum RangeError {
    /// The start bound sorts after the end bound.
    StartAfterEnd,
    /// Equal bounds exclude their only possible shared point.
    EmptyExcludedBounds,
}

impl RangeError {
    /// The error's message.
    pub fn message(&self) -> (text: &'static str)
        ensures
            match self {
                RangeError::StartAfterEnd => text@ == "range start is after range end"@,
                RangeError::EmptyExcludedBounds => text@ == "equal range bounds must both be included"@,
            },
    {
        match self {
            Self::StartAfterEnd => "range start is after range end",
            Self::EmptyExcludedBounds => "equal range bounds must both be included",
        }
    }
}

/// The error, if any, that a pair of bounds is rejected with.
pub open spec fn bounds_error<K: OrderedKey>(start: Bound<K>, end: Bound<K>) -> Option<RangeError> {
    match (start, end) {
        (Bound::Included(s), Bound::Included(e)) => if K::less(e@, s@) {
            Some(RangeError::StartAfterEnd)
        } else {
            None
        },
        (Bound::Included(s), Bound::Excluded(e))
        | (Bound::Excluded(s), Bound::Included(e))
        | (Bound::Excluded(s), Bound::Excluded(e)) => if K::less(e@, s@) {
            Some(RangeError::StartAfterEnd)
        } else if s@ == e@ {
            Some(RangeError::EmptyExcludedBounds)
        } else {
            None
        },
        _ => None,
    }
}

/// A key satisfies the start bound.
pub open spec fn after_start<K: OrderedKey>(key: K::V, start: Bound<K>) -> bool {
    match start {
        Bound::Included(s) => !K::less(key, s@),
        Bound::Excluded(s) => K::less(s@, key),
        Bound::Unbounded => true,
    }
}

/// A key satisfies the end bound.
pub open spec fn before_end<K: OrderedKey>(key: K::V, end: Bound<K>) -> bool {
    match end {
        Bound::Included(e) => !K::less(e@, key),
        Bound::Excluded(e) => K::less(key, e@),
        Bound::Unbounded => true,
    }
}

/// Checks that bounds describe an ordered interval.
pub fn validate_bounds<K: OrderedKey>(bounds: &(Bound<K>, Bound<K>)) -> (result: Result<(), RangeError>)
    ensures
        match bounds_error::<K>(bounds.0, bounds.1) {
            Some(error) => result == Err::<(), RangeError>(error),
            None => result is Ok,
        },
{
    match (&bounds.0, &bounds.1) {
        (Bound::Included(start), Bound::Included(end)) => match start.compare(end) {
            KeyOrder::Less | KeyOrder::Equal => {
                proof {
                    K::lemma_less_irreflexive(start@);
                    if K::less(start@, end@) && K::less(end@, start@) {
                        K::lemma_less_transitive(start@, end@, start@);
                    }
                }
                Ok(())
            },
            KeyOrder::Greater => Err(RangeError::StartAfterEnd),
        },
        (Bound::Included(start), Bound::Excluded(end))
        | (Bound::Excluded(start), Bound::Included(end))
        | (Bound::Excluded(start), Bound::Excluded(end)) => match start.compare(end) {
            KeyOrder::Less => {
                proof {
                    K::lemma_less_irreflexive(start@);
                    if K::less(end@, start@) {
                        K::lemma_less_transitive(start@, end@, start@);
                    }
                }
                Ok(())
            },
            KeyOrder::Equal => {
                proof {
                    K::lemma_less_irreflexive(start@);
                }
                Err(RangeError::EmptyExcludedBounds)
            },
            KeyOrder::Greater => Err(RangeError::StartAfterEnd),
        },
        _ => Ok(()),
    }
}


/// A branch above a cursor's leaf and the child taken from it.
struct AncestorFrame<'a, K, V, const CAPACITY: usize> {
    branch: &'a BranchNode<K, V, CAPACITY>,
    child_index: usize,
}

impl<'a, K: OrderedKey, V, const CAPACITY: usize> AncestorFrame<'a, K, V, CAPACITY> {
    fn new(branch: &'a BranchNode<K, V, CAPACITY>, child_index: usize) -> (frame: Self)
        ensures
            frame.branch == branch,
            frame.child_index == child_index,
    {
        Self { branch, child_index }
    }

    fn next_child(&self) -> (next: Option<(usize, &'a Node<K, V, CAPACITY>)>)
        requires
            self.child_index <= self.branch.rightward@.len() < usize::MAX,
        ensures
            match next {
                Some((index, child)) => index == self.child_index + 1 && index
                    <= self.branch.rightward@.len() && *child == self.branch.child(index as int),
                None => self.child_index >= self.branch.rightward@.len(),
            },
    {
        let next_index = self.child_index.saturating_add(1);
        match self.branch.child_at(next_index) {
            Some(child) => Some((next_index, child)),
            None => None,
        }
    }

    fn previous_child(&self) -> (previous: Option<(usize, &'a Node<K, V, CAPACITY>)>)
        requires
            self.child_index <= self.branch.rightward@.len(),
        ensures
            match previous {
                Some((index, child)) => index + 1 == self.child_index && *child == self.branch.child(
                    index as int,
                ),
                None => self.child_index == 0,
            },
    {
        if self.child_index == 0 {
            return None;
        }
        let previous_index = self.child_index - 1;
        match self.branch.child_at(previous_index) {
            Some(child) => Some((previous_index, child)),
            None => None,
        }
    }
}

/// The node reached from `root` after the first `level` frames.
spec fn frames_node<'a, K: OrderedKey, V, const CAPACITY: usize>(
    frames: Seq<AncestorFrame<'a, K, V, CAPACITY>>,
    root: Node<K, V, CAPACITY>,
    level: int,
) -> Node<K, V, CAPACITY> {
    if level <= 0 {
        root
    } else {
        frames[level - 1].branch.child(frames[level - 1].child_index as int)
    }
}

/// The frames follow a path of valid nodes down from `root`.
spec fn frames_path_ok<'a, K: OrderedKey, V, const CAPACITY: usize>(
    frames: Seq<AncestorFrame<'a, K, V, CAPACITY>>,
    root: Node<K, V, CAPACITY>,
) -> bool {
    &&& capacity_ok::<CAPACITY>()
    &&& root.inv()
    &&& forall|l: int|
        0 <= l < frames.len() ==> Node::Branch(*(#[trigger] frames[l]).branch) == frames_node(
            frames,
            root,
            l,
        ) && frames[l].child_index <= frames[l].branch.rightward@.len()
    &&& forall|l: int| 0 <= l <= frames.len() ==> #[trigger] frames_node(frames, root, l).inv()
    &&& forall|l: int| 1 <= l <= frames.len() ==> !#[trigger] frames_node(frames, root, l).underfull()
}

/// The entries before the frames' chosen children, level by level.
spec fn frames_before<'a, K: OrderedKey, V, const CAPACITY: usize>(
    frames: Seq<AncestorFrame<'a, K, V, CAPACITY>>,
    count: int,
) -> Seq<(K::V, V)>
    decreases count,
{
    if count <= 0 {
        Seq::empty()
    } else {
        frames_before(frames, count - 1) + frames[count - 1].branch.before(
            frames[count - 1].child_index as int,
        )
    }
}

/// The entries after the frames' chosen children, level by level.
spec fn frames_after<'a, K: OrderedKey, V, const CAPACITY: usize>(
    frames: Seq<AncestorFrame<'a, K, V, CAPACITY>>,
    count: int,
) -> Seq<(K::V, V)>
    decreases count,
{
    if count <= 0 {
        Seq::empty()
    } else {
        frames[count - 1].branch.after(frames[count - 1].child_index as int) + frames_after(
            frames,
            count - 1,
        )
    }
}

/// Frames with the same branches and children up to `count` see the same entries around them.
proof fn lemma_frames_prefix<'a, K: OrderedKey, V, const CAPACITY: usize>(
    a: Seq<AncestorFrame<'a, K, V, CAPACITY>>,
    b: Seq<AncestorFrame<'a, K, V, CAPACITY>>,
    count: int,
)
    requires
        0 <= count <= a.len(),
        count <= b.len(),
        forall|l: int| 0 <= l < count ==> #[trigger] a[l] == b[l],
    ensures
        frames_before(a, count) == frames_before(b, count),
        frames_after(a, count) == frames_after(b, count),
    decreases count,
{
    if count > 0 {
        lemma_frames_prefix(a, b, count - 1);
        assert(a[count - 1] == b[count - 1]);
    }
}

/// The children after the last one hold no entries.
proof fn lemma_after_last<K: OrderedKey, V, const CAPACITY: usize>(branch: BranchNode<K, V, CAPACITY>)
    ensures
        branch.after(branch.rightward@.len() as int) == Seq::<(K::V, V)>::empty(),
{
    assert(branch.rightward@.skip(branch.rightward@.len() as int) =~= Seq::empty());
    assert(Node::<K, V, CAPACITY>::all_edges_entries(Seq::empty()) =~= Seq::empty());
}

/// `s` splits at `p` around `key`: the entries before `p` sort before `key`
/// (or equal it, when `equal_before`), and the others after it.
spec fn splits_at<K: OrderedKey, V>(s: Seq<(K::V, V)>, p: int, key: K::V, equal_before: bool) -> bool {
    &&& 0 <= p <= s.len()
    &&& forall|i: int|
        #![trigger s[i]]
        0 <= i < p ==> if equal_before {
            !K::less(key, s[i].0)
        } else {
            K::less(s[i].0, key)
        }
    &&& forall|i: int|
        #![trigger s[i]]
        p <= i < s.len() ==> if equal_before {
            K::less(key, s[i].0)
        } else {
            !K::less(s[i].0, key)
        }
}

/// A split of a leaf's entries is a split of the whole sequence when every
/// entry before the leaf sorts before the key and every entry after it, after.
proof fn lemma_splits_concat<K: OrderedKey, V>(
    before: Seq<(K::V, V)>,
    middle: Seq<(K::V, V)>,
    after: Seq<(K::V, V)>,
    p: int,
    key: K::V,
    equal_before: bool,
)
    requires
        all_below::<K, V>(before, key),
        all_above::<K, V>(after, key),
        splits_at::<K, V>(middle, p, key, equal_before),
    ensures
        splits_at::<K, V>(before + middle + after, before.len() + p, key, equal_before),
{
    let s = before + middle + after;
    let b = before.len() as int;
    let m = middle.len() as int;
    assert forall|i: int| 0 <= i < b + p implies if equal_before {
        !K::less(key, #[trigger] s[i].0)
    } else {
        K::less(s[i].0, key)
    } by {
        if i < b {
            assert(s[i] == before[i]);
        } else {
            assert(s[i] == middle[i - b]);
        }
    }
    assert forall|i: int| b + p <= i < s.len() implies if equal_before {
        K::less(key, #[trigger] s[i].0)
    } else {
        !K::less(s[i].0, key)
    } by {
        if i < b + m {
            assert(s[i] == middle[i - b]);
        } else {
            assert(s[i] == after[i - b - m]);
        }
    }
}

/// Which side of a bound key a cursor stands on.
#[derive(Clone, Copy)]
enum BoundSide {
    StartIncluded,
    StartExcluded,
    EndIncluded,
    EndExcluded,
}

impl BoundSide {
    /// Entries equal to the bound key lie before the cursor.
    spec fn equal_before(self) -> bool {
        match self {
            BoundSide::StartIncluded | BoundSide::EndExcluded => false,
            BoundSide::StartExcluded | BoundSide::EndIncluded => true,
        }
    }

    /// The entry position in a leaf for the result of searching it.
    fn entry_index(self, slot: SearchSlot) -> (index: usize)
        requires
            match slot {
                SearchSlot::Occupied(found) => found.0 < usize::MAX,
                SearchSlot::Vacant(_) => true,
            },
        ensures
            match slot {
                SearchSlot::Occupied(found) => index == if self.equal_before() {
                    found.0 + 1
                } else {
                    found.0 as int
                },
                SearchSlot::Vacant(gap) => index == gap.0,
            },
    {
        match (self, slot) {
            (Self::StartIncluded, SearchSlot::Occupied(index))
            | (Self::EndExcluded, SearchSlot::Occupied(index)) => index.get(),
            (Self::StartExcluded, SearchSlot::Occupied(index))
            | (Self::EndIncluded, SearchSlot::Occupied(index)) => index.get().saturating_add(1),
            (_, SearchSlot::Vacant(index)) => index.get(),
        }
    }
}

/// A position among the entries of a tree, by way of a leaf.
struct Cursor<'a, K, V, const CAPACITY: usize> {
    leaf: Option<&'a LeafNode<K, V, CAPACITY>>,
    entry_index: usize,
    ancestors: Vec<AncestorFrame<'a, K, V, CAPACITY>>,
}

impl<'a, K: OrderedKey, V, const CAPACITY: usize> Cursor<'a, K, V, CAPACITY> {
    /// The frames follow a path of valid nodes down from `root`.
    spec fn path_ok(self, root: Node<K, V, CAPACITY>) -> bool {
        frames_path_ok(self.ancestors@, root)
    }

    /// The node at the end of the path.
    spec fn bottom(self, root: Node<K, V, CAPACITY>) -> Node<K, V, CAPACITY> {
        frames_node(self.ancestors@, root, self.ancestors@.len() as int)
    }

    /// The entries to the left of the path.
    spec fn before(self) -> Seq<(K::V, V)> {
        frames_before(self.ancestors@, self.ancestors@.len() as int)
    }

    /// The entries to the right of the path.
    spec fn after(self) -> Seq<(K::V, V)> {
        frames_after(self.ancestors@, self.ancestors@.len() as int)
    }

    /// The leaf, if any, is the node at the end of the path, and the entry
    /// position lies within it.
    spec fn wf(self, root: Node<K, V, CAPACITY>) -> bool {
        &&& self.path_ok(root)
        &&& match self.leaf {
            Some(leaf) => Node::Leaf(*leaf) == self.bottom(root) && self.entry_index
                <= leaf.entries@.len(),
            None => true,
        }
    }

    /// The number of entries before the cursor; a cursor past the last leaf
    /// stands at the end.
    spec fn front_position(self, root: Node<K, V, CAPACITY>) -> int {
        match self.leaf {
            Some(_) => self.before().len() + self.entry_index,
            None => root.entries().len() as int,
        }
    }

    /// The number of entries before the cursor; a cursor past the first leaf
    /// stands at the start.
    spec fn back_position(self, root: Node<K, V, CAPACITY>) -> int {
        match self.leaf {
            Some(_) => self.before().len() + self.entry_index,
            None => 0,
        }
    }

    /// The root's entries around the node at `level` of a valid path.
    proof fn lemma_path_entries(self, root: Node<K, V, CAPACITY>, level: int)
        requires
            self.path_ok(root),
            0 <= level <= self.ancestors@.len(),
        ensures
            root.entries() == frames_before(self.ancestors@, level) + frames_node(self.ancestors@, root, level).entries()
                + frames_after(self.ancestors@, level),
        decreases level,
    {
        if level > 0 {
            self.lemma_path_entries(root, level - 1);
            let frame = self.ancestors@[level - 1];
            assert(Node::Branch(*frame.branch) == frames_node(self.ancestors@, root, level - 1));
            frame.branch.lemma_split_at(frame.child_index as int);
        }
        assert(root.entries() =~= frames_before(self.ancestors@, level) + frames_node(self.ancestors@, root,
            level,
        ).entries() + frames_after(self.ancestors@, level));
    }

    /// A valid cursor's position lies within the root's entries, and its leaf's
    /// entries stand at its leaf offset.
    proof fn lemma_position(self, root: Node<K, V, CAPACITY>)
        requires
            self.wf(root),
        ensures
            root.entries() == self.before() + self.bottom(root).entries() + self.after(),
            0 <= self.front_position(root) <= root.entries().len(),
            0 <= self.back_position(root) <= root.entries().len(),
            self.leaf matches Some(leaf) ==> forall|i: int|
                0 <= i < leaf.entries@.len() ==> #[trigger] leaf.pairs()[i] == root.entries()[self.before().len() + i],
    {
        let len = self.ancestors@.len() as int;
        self.lemma_path_entries(root, len);
        if let Some(leaf) = self.leaf {
            let b = self.before();
            let a = self.after();
            assert(leaf.pairs().len() == leaf.entries@.len());
            assert forall|i: int| 0 <= i < leaf.entries@.len() implies #[trigger] leaf.pairs()[i]
                == root.entries()[self.before().len() + i] by {
                assert((b + leaf.pairs() + a)[b.len() + i] == leaf.pairs()[i]);
            }
        }
    }

    /// Pushing a frame for a child of the node at the end of a valid path
    /// extends the path down to that child.
    proof fn lemma_push(
        self,
        next: Self,
        root: Node<K, V, CAPACITY>,
        frame: AncestorFrame<'a, K, V, CAPACITY>,
    )
        requires
            self.path_ok(root),
            Node::Branch(*frame.branch) == self.bottom(root),
            frame.child_index <= frame.branch.rightward@.len(),
            next.ancestors@ == self.ancestors@.push(frame),
        ensures
            next.path_ok(root),
            next.bottom(root) == frame.branch.child(frame.child_index as int),
            next.before() == self.before() + frame.branch.before(frame.child_index as int),
            next.after() == frame.branch.after(frame.child_index as int) + self.after(),
    {
        let level = self.ancestors@.len() as int;
        assert(frames_node(self.ancestors@, root, level).inv());
        frame.branch.lemma_child(frame.child_index as int);
        assert forall|l: int| 0 <= l <= level implies #[trigger] frames_node(next.ancestors@, root, l)
            == frames_node(self.ancestors@, root, l) by {
            if l > 0 {
                assert(next.ancestors@[l - 1] == self.ancestors@[l - 1]);
            }
        }
        assert(next.ancestors@[level] == frame);
        assert forall|l: int| 0 <= l < next.ancestors@.len() implies Node::Branch(
            *(#[trigger] next.ancestors@[l]).branch,
        ) == frames_node(next.ancestors@, root, l) && next.ancestors@[l].child_index
            <= next.ancestors@[l].branch.rightward@.len() by {
            if l < level {
                assert(next.ancestors@[l] == self.ancestors@[l]);
                assert(frames_node(next.ancestors@, root, l) == frames_node(self.ancestors@, root, l));
            }
        }
        assert forall|l: int| 0 <= l <= next.ancestors@.len() implies #[trigger] frames_node(next.ancestors@, root,
            l,
        ).inv() by {
            if l <= level {
                assert(frames_node(next.ancestors@, root, l) == frames_node(self.ancestors@, root, l));
            }
        }
        assert forall|l: int| 1 <= l <= next.ancestors@.len() implies !#[trigger] frames_node(next.ancestors@, root,
            l,
        ).underfull() by {
            if l <= level {
                assert(frames_node(next.ancestors@, root, l) == frames_node(self.ancestors@, root, l));
            }
        }
        lemma_frames_prefix(next.ancestors@, self.ancestors@, level);
    }

    /// Dropping the last frame of a valid path leaves a valid path that ends at
    /// the dropped frame's branch.
    proof fn lemma_pop(self, next: Self, root: Node<K, V, CAPACITY>)
        requires
            self.path_ok(root),
            self.ancestors@.len() > 0,
            next.ancestors@ == self.ancestors@.drop_last(),
        ensures
            next.path_ok(root),
            Node::Branch(*self.ancestors@.last().branch) == next.bottom(root),
            self.ancestors@.last().child_index <= self.ancestors@.last().branch.rightward@.len(),
            self.bottom(root) == self.ancestors@.last().branch.child(
                self.ancestors@.last().child_index as int,
            ),
            self.before() == next.before() + self.ancestors@.last().branch.before(
                self.ancestors@.last().child_index as int,
            ),
            self.after() == self.ancestors@.last().branch.after(
                self.ancestors@.last().child_index as int,
            ) + next.after(),
    {
        let level = next.ancestors@.len() as int;
        assert forall|l: int| 0 <= l <= level implies #[trigger] frames_node(next.ancestors@, root, l)
            == frames_node(self.ancestors@, root, l) by {
            if l > 0 {
                assert(next.ancestors@[l - 1] == self.ancestors@[l - 1]);
            }
        }
        assert forall|l: int| 0 <= l < next.ancestors@.len() implies Node::Branch(
            *(#[trigger] next.ancestors@[l]).branch,
        ) == frames_node(next.ancestors@, root, l) && next.ancestors@[l].child_index
            <= next.ancestors@[l].branch.rightward@.len() by {
            assert(next.ancestors@[l] == self.ancestors@[l]);
            assert(frames_node(next.ancestors@, root, l) == frames_node(self.ancestors@, root, l));
        }
        assert forall|l: int| 0 <= l <= next.ancestors@.len() implies #[trigger] frames_node(next.ancestors@, root,
            l,
        ).inv() by {
            assert(frames_node(next.ancestors@, root, l) == frames_node(self.ancestors@, root, l));
        }
        assert forall|l: int| 1 <= l <= next.ancestors@.len() implies !#[trigger] frames_node(next.ancestors@, root,
            l,
        ).underfull() by {
            assert(frames_node(next.ancestors@, root, l) == frames_node(self.ancestors@, root, l));
        }
        assert(Node::Branch(*self.ancestors@[level].branch) == frames_node(self.ancestors@, root, level));
        lemma_frames_prefix(next.ancestors@, self.ancestors@, level);
    }

    fn empty() -> (cursor: Self)
        ensures
            cursor.leaf is None,
            cursor.entry_index == 0,
            cursor.ancestors@.len() == 0,
    {
        Self { leaf: None, entry_index: 0, ancestors: Vec::new() }
    }
}

impl<'a, K: OrderedKey, V, const CAPACITY: usize> Cursor<'a, K, V, CAPACITY> {
    /// Pushes the leftmost path below `node`, the node at the end of the path,
    /// and stands at the start of its first leaf.
    fn descend_to_first(&mut self, node: &'a Node<K, V, CAPACITY>, Ghost(root): Ghost<Node<K, V, CAPACITY>>)
        requires
            old(self).path_ok(root),
            *node == old(self).bottom(root),
        ensures
            final(self).wf(root),
            final(self).leaf is Some,
            final(self).entry_index == 0,
            final(self).before() == old(self).before(),
            final(self).ancestors@.len() >= old(self).ancestors@.len(),
            final(self).ancestors@.len() >= 1 ==> final(self).leaf.unwrap().entries@.len() > 0,
    {
        let mut node = node;
        loop
            invariant
                self.path_ok(root),
                *node == self.bottom(root),
                self.before() == old(self).before(),
                self.ancestors@.len() >= old(self).ancestors@.len(),
            decreases node.height(),
        {
            match node {
                Node::Leaf(leaf) => {
                    self.leaf = Some(leaf);
                    self.entry_index = 0;
                    proof {
                        let len = self.ancestors@.len() as int;
                        if len >= 1 {
                            assert(!frames_node(self.ancestors@, root, len).underfull());
                        }
                    }
                    return;
                },
                Node::Branch(branch) => {
                    let ghost previous = *self;
                    self.ancestors.push(AncestorFrame::new(branch, 0));
                    proof {
                        previous.lemma_push(*self, root, AncestorFrame { branch, child_index: 0 });
                        assert(self.before() =~= previous.before());
                        assert(previous.bottom(root).inv());
                        branch.lemma_child(0);
                    }
                    match branch.child_at(0) {
                        Some(child) => node = child,
                        None => {
                            self.leaf = None;
                            return;
                        },
                    }
                },
            }
        }
    }

    /// Pushes the rightmost path below `node`, the node at the end of the
    /// path, and stands at the end of its last leaf.
    fn descend_to_last(&mut self, node: &'a Node<K, V, CAPACITY>, Ghost(root): Ghost<Node<K, V, CAPACITY>>)
        requires
            old(self).path_ok(root),
            *node == old(self).bottom(root),
        ensures
            final(self).wf(root),
            final(self).leaf matches Some(leaf) && final(self).entry_index == leaf.entries@.len(),
            final(self).before().len() + final(self).entry_index == old(self).before().len()
                + node.entries().len(),
            final(self).ancestors@.len() >= old(self).ancestors@.len(),
            final(self).ancestors@.len() >= 1 ==> final(self).entry_index > 0,
    {
        let mut current = node;
        loop
            invariant
                self.path_ok(root),
                *current == self.bottom(root),
                self.before().len() + current.entries().len() == old(self).before().len()
                    + node.entries().len(),
                self.ancestors@.len() >= old(self).ancestors@.len(),
            decreases current.height(),
        {
            match current {
                Node::Leaf(leaf) => {
                    self.leaf = Some(leaf);
                    self.entry_index = leaf.entry_count();
                    proof {
                        let len = self.ancestors@.len() as int;
                        if len >= 1 {
                            assert(!frames_node(self.ancestors@, root, len).underfull());
                        }
                        assert(current.entries().len() == leaf.entries@.len());
                    }
                    return;
                },
                Node::Branch(branch) => {
                    proof {
                        assert(self.bottom(root).inv());
                    }
                    let child_index = branch.child_count().saturating_sub(1);
                    let ghost previous = *self;
                    self.ancestors.push(AncestorFrame::new(branch, child_index));
                    proof {
                        previous.lemma_push(*self, root, AncestorFrame { branch, child_index });
                        branch.lemma_child(child_index as int);
                        branch.lemma_split_at(child_index as int);
                        lemma_after_last(*branch);
                    }
                    match branch.child_at(child_index) {
                        Some(child) => current = child,
                        None => {
                            self.leaf = None;
                            return;
                        },
                    }
                },
            }
        }
    }
}

impl<'a, K: OrderedKey, V, const CAPACITY: usize> Cursor<'a, K, V, CAPACITY> {
    /// Leaves the subtree at the end of the path and stands at the start of
    /// the next leaf, or past the last leaf when there is none.
    fn move_to_next_leaf(&mut self, Ghost(root): Ghost<Node<K, V, CAPACITY>>)
        requires
            old(self).path_ok(root),
        ensures
            final(self).wf(root),
            final(self).front_position(root) == old(self).before().len() + old(self).bottom(
                root,
            ).entries().len(),
            final(self).leaf matches Some(leaf) ==> final(self).entry_index == 0
                && leaf.entries@.len() > 0,
    {
        loop
            invariant
                self.path_ok(root),
                self.before().len() + self.bottom(root).entries().len() == old(self).before().len()
                    + old(self).bottom(root).entries().len(),
            decreases self.ancestors@.len(),
        {
            let ghost previous = *self;
            match self.ancestors.pop() {
                None => {
                    self.leaf = None;
                    return;
                },
                Some(frame) => {
                    proof {
                        previous.lemma_pop(*self, root);
                        assert(self.bottom(root).inv());
                    }
                    match frame.next_child() {
                        Some((index, child)) => {
                            let ghost popped = *self;
                            self.ancestors.push(AncestorFrame::new(frame.branch, index));
                            proof {
                                popped.lemma_push(
                                    *self,
                                    root,
                                    AncestorFrame { branch: frame.branch, child_index: index },
                                );
                                frame.branch.lemma_before_step(frame.child_index as int);
                            }
                            self.descend_to_first(child, Ghost(root));
                            return;
                        },
                        None => {
                            proof {
                                frame.branch.lemma_split_at(frame.child_index as int);
                                lemma_after_last(*frame.branch);
                            }
                        },
                    }
                },
            }
        }
    }

    /// Leaves the subtree at the end of the path and stands at the end of
    /// the previous leaf, or before the first leaf when there is none.
    fn move_to_previous_leaf(&mut self, Ghost(root): Ghost<Node<K, V, CAPACITY>>)
        requires
            old(self).path_ok(root),
        ensures
            final(self).wf(root),
            final(self).back_position(root) == old(self).before().len(),
            final(self).leaf matches Some(leaf) ==> final(self).entry_index == leaf.entries@.len()
                && final(self).entry_index > 0,
    {
        loop
            invariant
                self.path_ok(root),
                self.before().len() == old(self).before().len(),
            decreases self.ancestors@.len(),
        {
            let ghost previous = *self;
            match self.ancestors.pop() {
                None => {
                    self.leaf = None;
                    return;
                },
                Some(frame) => {
                    proof {
                        previous.lemma_pop(*self, root);
                    }
                    match frame.previous_child() {
                        Some((index, child)) => {
                            let ghost popped = *self;
                            self.ancestors.push(AncestorFrame::new(frame.branch, index));
                            proof {
                                popped.lemma_push(
                                    *self,
                                    root,
                                    AncestorFrame { branch: frame.branch, child_index: index },
                                );
                                frame.branch.lemma_before_step(index as int);
                            }
                            self.descend_to_last(child, Ghost(root));
                            return;
                        },
                        None => {
                            proof {
                                assert(previous.before() =~= self.before());
                            }
                        },
                    }
                },
            }
        }
    }

    /// Returns the entry at the cursor and steps past it.
    fn next_entry(&mut self, Ghost(root): Ghost<Node<K, V, CAPACITY>>) -> (entry: Option<(&'a K, &'a V)>)
        requires
            old(self).wf(root),
        ensures
            final(self).wf(root),
            old(self).front_position(root) < root.entries().len() ==> (entry matches Some((key, value))
                && (key@, *value) == root.entries()[old(self).front_position(root)]
                && final(self).front_position(root) == old(self).front_position(root) + 1),
            old(self).front_position(root) >= root.entries().len() ==> entry is None
                && final(self).front_position(root) == old(self).front_position(root),
    {
        proof {
            self.lemma_position(root);
        }
        loop
            invariant
                self.wf(root),
                self.front_position(root) == old(self).front_position(root),
            decreases (if self.leaf matches Some(leaf) && self.entry_index >= leaf.entries@.len() {
                1int
            } else {
                0int
            }),
        {
            let leaf = match self.leaf {
                Some(leaf) => leaf,
                None => return None,
            };
            proof {
                self.lemma_position(root);
            }
            proof {
                assert(self.bottom(root).inv());
            }
            match leaf.entry_at(self.entry_index) {
                Some(entry) => {
                    self.entry_index = self.entry_index + 1;
                    return Some(entry);
                },
                None => {},
            }
            proof {
                assert(self.bottom(root).entries().len() == leaf.entries@.len());
            }
            self.move_to_next_leaf(Ghost(root));
        }
    }

    /// Returns the entry before the cursor and steps back over it.
    fn next_back_entry(&mut self, Ghost(root): Ghost<Node<K, V, CAPACITY>>) -> (entry: Option<(&'a K, &'a V)>)
        requires
            old(self).wf(root),
        ensures
            final(self).wf(root),
            old(self).back_position(root) > 0 ==> (entry matches Some((key, value)) && (key@, *value)
                == root.entries()[old(self).back_position(root) - 1] && final(self).back_position(root)
                == old(self).back_position(root) - 1),
            old(self).back_position(root) <= 0 ==> entry is None && final(self).back_position(root)
                == old(self).back_position(root),
    {
        loop
            invariant
                self.wf(root),
                self.back_position(root) == old(self).back_position(root),
            decreases (if self.leaf is Some && self.entry_index == 0 {
                1int
            } else {
                0int
            }),
        {
            let leaf = match self.leaf {
                Some(leaf) => leaf,
                None => return None,
            };
            proof {
                self.lemma_position(root);
            }
            if self.entry_index > 0 {
                self.entry_index = self.entry_index - 1;
                return leaf.entry_at(self.entry_index);
            }
            self.move_to_previous_leaf(Ghost(root));
        }
    }

    /// Returns the entry at the cursor; the cursor may move to the next
    /// leaf, but keeps its position.
    fn peek_entry(&mut self, Ghost(root): Ghost<Node<K, V, CAPACITY>>) -> (entry: Option<(&'a K, &'a V)>)
        requires
            old(self).wf(root),
        ensures
            final(self).wf(root),
            final(self).front_position(root) == old(self).front_position(root),
            old(self).front_position(root) < root.entries().len() ==> (entry matches Some((key, value))
                && (key@, *value) == root.entries()[old(self).front_position(root)]),
            old(self).front_position(root) >= root.entries().len() ==> entry is None,
    {
        proof {
            self.lemma_position(root);
        }
        loop
            invariant
                self.wf(root),
                self.front_position(root) == old(self).front_position(root),
            decreases (if self.leaf matches Some(leaf) && self.entry_index >= leaf.entries@.len() {
                1int
            } else {
                0int
            }),
        {
            let leaf = match self.leaf {
                Some(leaf) => leaf,
                None => return None,
            };
            proof {
                self.lemma_position(root);
            }
            match leaf.entry_at(self.entry_index) {
                Some(entry) => {
                    return Some(entry);
                },
                None => {},
            }
            proof {
                assert(self.bottom(root).entries().len() == leaf.entries@.len());
            }
            self.move_to_next_leaf(Ghost(root));
        }
    }

    /// Returns the entry before the cursor; the cursor may move to the
    /// previous leaf, but keeps its position.
    fn peek_back_entry(&mut self, Ghost(root): Ghost<Node<K, V, CAPACITY>>) -> (entry: Option<(&'a K, &'a V)>)
        requires
            old(self).wf(root),
        ensures
            final(self).wf(root),
            final(self).back_position(root) == old(self).back_position(root),
            old(self).back_position(root) > 0 ==> (entry matches Some((key, value)) && (key@, *value)
                == root.entries()[old(self).back_position(root) - 1]),
            old(self).back_position(root) <= 0 ==> entry is None,
    {
        loop
            invariant
                self.wf(root),
                self.back_position(root) == old(self).back_position(root),
            decreases (if self.leaf is Some && self.entry_index == 0 {
                1int
            } else {
                0int
            }),
        {
            let leaf = match self.leaf {
                Some(leaf) => leaf,
                None => return None,
            };
            proof {
                self.lemma_position(root);
            }
            if self.entry_index > 0 {
                return leaf.entry_at(self.entry_index - 1);
            }
            self.move_to_previous_leaf(Ghost(root));
        }
    }
}

/// Every key of a concatenation sorts before `key` when every key of both parts does.
proof fn lemma_all_below_concat<K: OrderedKey, V>(a: Seq<(K::V, V)>, b: Seq<(K::V, V)>, key: K::V)
    requires
        all_below::<K, V>(a, key),
        all_below::<K, V>(b, key),
    ensures
        all_below::<K, V>(a + b, key),
{
    let s = a + b;
    assert forall|i: int| 0 <= i < s.len() implies K::less(#[trigger] s[i].0, key) by {
        if i < a.len() {
            assert(s[i] == a[i]);
        } else {
            assert(s[i] == b[i - a.len()]);
        }
    }
}

/// Every key of a concatenation sorts after `key` when every key of both parts does.
proof fn lemma_all_above_concat<K: OrderedKey, V>(a: Seq<(K::V, V)>, b: Seq<(K::V, V)>, key: K::V)
    requires
        all_above::<K, V>(a, key),
        all_above::<K, V>(b, key),
    ensures
        all_above::<K, V>(a + b, key),
{
    let s = a + b;
    assert forall|i: int| 0 <= i < s.len() implies K::less(key, #[trigger] s[i].0) by {
        if i < a.len() {
            assert(s[i] == a[i]);
        } else {
            assert(s[i] == b[i - a.len()]);
        }
    }
}

/// The entries before `p` fail the start bound and the others meet it.
spec fn starts_at<K: OrderedKey, V>(s: Seq<(K::V, V)>, p: int, start: Bound<K>) -> bool {
    &&& 0 <= p <= s.len()
    &&& forall|i: int| #![trigger s[i]] 0 <= i < p ==> !after_start::<K>(s[i].0, start)
    &&& forall|i: int| #![trigger s[i]] p <= i < s.len() ==> after_start::<K>(s[i].0, start)
}

/// The entries before `p` meet the end bound and the others fail it.
spec fn ends_at<K: OrderedKey, V>(s: Seq<(K::V, V)>, p: int, end: Bound<K>) -> bool {
    &&& 0 <= p <= s.len()
    &&& forall|i: int| #![trigger s[i]] 0 <= i < p ==> before_end::<K>(s[i].0, end)
    &&& forall|i: int| #![trigger s[i]] p <= i < s.len() ==> !before_end::<K>(s[i].0, end)
}

/// The position that a leaf search leads to splits the leaf's entries.
proof fn lemma_slot_splits<K: OrderedKey, V>(
    pairs: Seq<(K::V, V)>,
    key: K::V,
    slot: SearchSlot,
    p: int,
    equal_before: bool,
)
    requires
        sorted::<K, V>(pairs),
        match slot {
            SearchSlot::Occupied(found) => found.0 < pairs.len() && pairs[found.0 as int].0 == key
                && p == if equal_before {
                found.0 + 1
            } else {
                found.0 as int
            },
            SearchSlot::Vacant(gap) => {
                &&& p == gap.0
                &&& gap.0 <= pairs.len()
                &&& forall|j: int| #![trigger pairs[j]] 0 <= j < gap.0 ==> K::less(pairs[j].0, key)
                &&& forall|j: int|
                    #![trigger pairs[j]]
                    gap.0 <= j < pairs.len() ==> K::less(key, pairs[j].0)
            },
        },
    ensures
        splits_at::<K, V>(pairs, p, key, equal_before),
{
    match slot {
        SearchSlot::Occupied(found) => {
            let f = found.0 as int;
            assert forall|j: int| 0 <= j < pairs.len() && j != f implies (j < f ==> K::less(
                #[trigger] pairs[j].0,
                key,
            )) && (j > f ==> K::less(key, pairs[j].0)) by {
                assert(pairs[f].0 == key);
            }
        },
        SearchSlot::Vacant(_) => {},
    }
}

impl<'a, K: OrderedKey, V, const CAPACITY: usize> Cursor<'a, K, V, CAPACITY> {
    /// A cursor at the first entry of `root`.
    fn at_first(root: &'a Node<K, V, CAPACITY>) -> (cursor: Self)
        requires
            capacity_ok::<CAPACITY>(),
            root.inv(),
        ensures
            cursor.wf(*root),
            cursor.leaf is Some,
            cursor.front_position(*root) == 0,
    {
        let mut cursor = Self::empty();
        proof {
            assert(frames_node(cursor.ancestors@, *root, 0) == *root);
            assert(cursor.before() =~= Seq::empty());
        }
        cursor.descend_to_first(root, Ghost(*root));
        cursor
    }

    /// A cursor past the last entry of `root`.
    fn at_last(root: &'a Node<K, V, CAPACITY>) -> (cursor: Self)
        requires
            capacity_ok::<CAPACITY>(),
            root.inv(),
        ensures
            cursor.wf(*root),
            cursor.leaf is Some,
            cursor.front_position(*root) == root.entries().len(),
    {
        let mut cursor = Self::empty();
        proof {
            assert(frames_node(cursor.ancestors@, *root, 0) == *root);
            assert(cursor.before() =~= Seq::empty());
        }
        cursor.descend_to_last(root, Ghost(*root));
        cursor
    }

    /// A cursor at the place of `key` in `root`: past the entries that sort
    /// before it, and past an equal entry too when `side` puts equal entries
    /// before the cursor.
    fn at_key(root: &'a Node<K, V, CAPACITY>, key: &K, side: BoundSide) -> (cursor: Self)
        requires
            capacity_ok::<CAPACITY>(),
            root.inv(),
        ensures
            cursor.wf(*root),
            cursor.leaf is Some,
            splits_at::<K, V>(root.entries(), cursor.front_position(*root), key@, side.equal_before()),
    {
        let ghost tree = *root;
        let mut cursor = Self::empty();
        let mut node = root;
        proof {
            assert(frames_node(cursor.ancestors@, tree, 0) == tree);
            assert(cursor.before() =~= Seq::empty());
            assert(cursor.after() =~= Seq::empty());
        }
        loop
            invariant
                tree == *root,
                cursor.path_ok(tree),
                *node == cursor.bottom(tree),
                all_below::<K, V>(cursor.before(), key@),
                all_above::<K, V>(cursor.after(), key@),
            decreases node.height(),
        {
            match node {
                Node::Leaf(leaf) => {
                    proof {
                        assert(cursor.bottom(tree).inv());
                        assert(leaf.pairs() == node.entries());
                    }
                    let slot = leaf.search(key);
                    cursor.leaf = Some(leaf);
                    cursor.entry_index = side.entry_index(slot);
                    proof {
                        let pairs = leaf.pairs();
                        let equal_before = side.equal_before();
                        lemma_slot_splits::<K, V>(pairs, key@, slot, cursor.entry_index as int, equal_before);
                        cursor.lemma_position(tree);
                        lemma_splits_concat::<K, V>(
                            cursor.before(),
                            pairs,
                            cursor.after(),
                            cursor.entry_index as int,
                            key@,
                            equal_before,
                        );
                    }
                    return cursor;
                },
                Node::Branch(branch) => {
                    proof {
                        assert(cursor.bottom(tree).inv());
                    }
                    let child_index = branch.child_index_for_key(key);
                    let ghost previous = cursor;
                    cursor.ancestors.push(AncestorFrame::new(branch, child_index));
                    proof {
                        previous.lemma_push(cursor, tree, AncestorFrame { branch, child_index });
                        branch.lemma_route(child_index as int, key@);
                        branch.lemma_child(child_index as int);
                        lemma_all_below_concat::<K, V>(previous.before(), branch.before(child_index as int), key@);
                        lemma_all_above_concat::<K, V>(branch.after(child_index as int), previous.after(), key@);
                    }
                    match branch.child_at(child_index) {
                        Some(child) => node = child,
                        None => {
                            cursor.leaf = None;
                            return cursor;
                        },
                    }
                },
            }
        }
    }

    /// A cursor at the first entry that meets the start bound.
    fn at_start_bound(root: &'a Node<K, V, CAPACITY>, bound: &Bound<K>) -> (cursor: Self)
        requires
            capacity_ok::<CAPACITY>(),
            root.inv(),
        ensures
            cursor.wf(*root),
            cursor.leaf is Some,
            starts_at::<K, V>(root.entries(), cursor.front_position(*root), *bound),
    {
        match bound {
            Bound::Unbounded => Self::at_first(root),
            Bound::Included(key) => Self::at_key(root, key, BoundSide::StartIncluded),
            Bound::Excluded(key) => Self::at_key(root, key, BoundSide::StartExcluded),
        }
    }

    /// A cursor past the last entry that meets the end bound.
    fn at_end_bound(root: &'a Node<K, V, CAPACITY>, bound: &Bound<K>) -> (cursor: Self)
        requires
            capacity_ok::<CAPACITY>(),
            root.inv(),
        ensures
            cursor.wf(*root),
            cursor.leaf is Some,
            ends_at::<K, V>(root.entries(), cursor.front_position(*root), *bound),
    {
        match bound {
            Bound::Unbounded => Self::at_last(root),
            Bound::Included(key) => Self::at_key(root, key, BoundSide::EndIncluded),
            Bound::Excluded(key) => Self::at_key(root, key, BoundSide::EndExcluded),
        }
    }
}

/// Immutable iterator over a tree's entries in key order.
pub struct Iter<'a, K, V, const CAPACITY: usize> {
    front: Cursor<'a, K, V, CAPACITY>,
    back: Cursor<'a, K, V, CAPACITY>,
    remaining: usize,
    tree: Ghost<Node<K, V, CAPACITY>>,
}

impl<'a, K: OrderedKey, V, const CAPACITY: usize> View for Iter<'a, K, V, CAPACITY> {
    /// The entries not yet yielded from either end, in key order.
    type V = Seq<(K::V, V)>;

    closed spec fn view(&self) -> Seq<(K::V, V)> {
        let start = self.front.front_position(self.tree@);
        self.tree@.entries().subrange(start, start + self.remaining)
    }
}

impl<'a, K: OrderedKey, V, const CAPACITY: usize> Iter<'a, K, V, CAPACITY> {
    /// Both cursors stand in the tree, `remaining` entries apart.
    pub closed spec fn wf(&self) -> bool {
        &&& self.front.wf(self.tree@)
        &&& self.back.wf(self.tree@)
        &&& self.front.front_position(self.tree@) + self.remaining == self.back.back_position(
            self.tree@,
        )
    }

    /// An iterator over the entries of `root`, of which there are `length`.
    pub(crate) fn new(root: &'a Node<K, V, CAPACITY>, length: usize) -> (iter: Self)
        requires
            capacity_ok::<CAPACITY>(),
            root.inv(),
            length == root.entries().len(),
        ensures
            iter.wf(),
            iter@ == root.entries(),
    {
        let iter = Self {
            front: Cursor::at_first(root),
            back: Cursor::at_last(root),
            remaining: length,
            tree: Ghost(*root),
        };
        proof {
            assert(root.entries().subrange(0, length as int) =~= root.entries());
        }
        iter
    }

    /// Yields the least entry not yet yielded.
    pub fn next(&mut self) -> (entry: Option<(&'a K, &'a V)>)
        requires
            old(self).wf(),
        ensures
            final(self).wf(),
            old(self)@.len() == 0 ==> entry is None && final(self)@ == old(self)@,
            old(self)@.len() > 0 ==> (entry matches Some((key, value)) && (key@, *value)
                == old(self)@[0] && final(self)@ == old(self)@.drop_first()),
    {
        let ghost tree = self.tree@;
        let ghost low = self.front.front_position(tree);
        proof {
            self.front.lemma_position(tree);
            self.back.lemma_position(tree);
        }
        if self.remaining == 0 {
            return None;
        }
        proof {
            assert(old(self)@[0] == tree.entries()[low]);
        }
        match self.front.next_entry(Ghost(self.tree@)) {
            Some(entry) => {
                self.remaining = self.remaining - 1;
                proof {
                    assert(self@ =~= old(self)@.drop_first());
                }
                Some(entry)
            },
            None => None,
        }
    }

    /// Yields the greatest entry not yet yielded.
    pub fn next_back(&mut self) -> (entry: Option<(&'a K, &'a V)>)
        requires
            old(self).wf(),
        ensures
            final(self).wf(),
            old(self)@.len() == 0 ==> entry is None && final(self)@ == old(self)@,
            old(self)@.len() > 0 ==> (entry matches Some((key, value)) && (key@, *value)
                == old(self)@.last() && final(self)@ == old(self)@.drop_last()),
    {
        let ghost tree = self.tree@;
        let ghost low = self.front.front_position(tree);
        let ghost high = self.back.back_position(tree);
        proof {
            self.front.lemma_position(tree);
            self.back.lemma_position(tree);
        }
        if self.remaining == 0 {
            return None;
        }
        proof {
            assert(old(self)@.last() == tree.entries()[high - 1]);
        }
        match self.back.next_back_entry(Ghost(self.tree@)) {
            Some(entry) => {
                self.remaining = self.remaining - 1;
                proof {
                    assert(self@ =~= old(self)@.drop_last());
                }
                Some(entry)
            },
            None => None,
        }
    }

    /// The exact number of entries left, as lower and upper bounds.
    pub fn size_hint(&self) -> (hint: (usize, Option<usize>))
        requires
            self.wf(),
        ensures
            hint.0 == self@.len(),
            hint.1 == Some(hint.0),
    {
        proof {
            self.back.lemma_position(self.tree@);
        }
        (self.remaining, Some(self.remaining))
    }

    /// The number of entries left.
    pub fn len(&self) -> (count: usize)
        requires
            self.wf(),
        ensures
            count == self@.len(),
    {
        proof {
            self.back.lemma_position(self.tree@);
        }
        self.remaining
    }
}

/// Whether a bounded traversal may still yield entries.
#[derive(Clone, Copy)]
enum TraversalState {
    Active,
    Finished,
}

/// Immutable double-ended iterator over entries within validated key bounds.
pub struct Range<'a, K, V, const CAPACITY: usize> {
    front: Cursor<'a, K, V, CAPACITY>,
    back: Cursor<'a, K, V, CAPACITY>,
    state: TraversalState,
    tree: Ghost<Node<K, V, CAPACITY>>,
}

/// `run` is the part of the sorted entries `all` whose keys lie within the bounds.
pub open spec fn bounded_run<K: OrderedKey, V>(
    run: Seq<(K::V, V)>,
    all: Seq<(K::V, V)>,
    start: Bound<K>,
    end: Bound<K>,
) -> bool {
    exists|low: int, high: int|
        #![trigger all.subrange(low, high)]
        0 <= low <= high <= all.len() && run == all.subrange(low, high) && forall|i: int|
            #![trigger all[i]]
            0 <= i < all.len() ==> ((low <= i < high) <==> (after_start::<K>(all[i].0, start)
                && before_end::<K>(all[i].0, end)))
}

impl<'a, K: OrderedKey, V, const CAPACITY: usize> View for Range<'a, K, V, CAPACITY> {
    /// The entries within the bounds not yet yielded from either end, in key order.
    type V = Seq<(K::V, V)>;

    closed spec fn view(&self) -> Seq<(K::V, V)> {
        let start = self.front.front_position(self.tree@);
        let end = self.back.back_position(self.tree@);
        if self.state is Finished || end <= start {
            Seq::empty()
        } else {
            self.tree@.entries().subrange(start, end)
        }
    }
}

impl<'a, K: OrderedKey, V, const CAPACITY: usize> Range<'a, K, V, CAPACITY> {
    /// Both cursors stand in the tree.
    pub closed spec fn wf(&self) -> bool {
        &&& self.front.wf(self.tree@)
        &&& self.back.wf(self.tree@)
    }

    /// A traversal of the entries of `root` within the bounds, or the error
    /// that the bounds are rejected with.
    pub(crate) fn new(root: &'a Node<K, V, CAPACITY>, bounds: &(Bound<K>, Bound<K>)) -> (result:
        Result<Self, RangeError>)
        requires
            capacity_ok::<CAPACITY>(),
            root.inv(),
        ensures
            match result {
                Err(error) => bounds_error::<K>(bounds.0, bounds.1) == Some(error),
                Ok(range) => bounds_error::<K>(bounds.0, bounds.1) is None && range.wf()
                    && bounded_run::<K, V>(range@, root.entries(), bounds.0, bounds.1),
            },
    {
        match validate_bounds(bounds) {
            Ok(()) => {},
            Err(error) => return Err(error),
        }
        let range = Self {
            front: Cursor::at_start_bound(root, &bounds.0),
            back: Cursor::at_end_bound(root, &bounds.1),
            state: TraversalState::Active,
            tree: Ghost(*root),
        };
        proof {
            let all = root.entries();
            let low = range.front.front_position(*root);
            let end = range.back.back_position(*root);
            let high = if end <= low {
                low
            } else {
                end
            };
            assert(range@ =~= all.subrange(low, high));
            assert(0 <= low <= high <= all.len() && range@ == all.subrange(low, high) && forall|i: int|
                #![trigger all[i]]
                0 <= i < all.len() ==> ((low <= i < high) <==> (after_start::<K>(all[i].0, bounds.0)
                    && before_end::<K>(all[i].0, bounds.1))));
        }
        Ok(range)
    }

    fn finish(&mut self)
        ensures
            final(self).state is Finished,
            final(self).front == old(self).front,
            final(self).back == old(self).back,
            final(self).tree == old(self).tree,
    {
        self.state = TraversalState::Finished;
    }

    /// Yields the least entry within the bounds not yet yielded.
    pub fn next(&mut self) -> (entry: Option<(&'a K, &'a V)>)
        requires
            old(self).wf(),
        ensures
            final(self).wf(),
            old(self)@.len() == 0 ==> entry is None && final(self)@ == old(self)@,
            old(self)@.len() > 0 ==> (entry matches Some((key, value)) && (key@, *value)
                == old(self)@[0] && final(self)@ == old(self)@.drop_first()),
    {
        if let TraversalState::Finished = self.state {
            return None;
        }
        let ghost tree = self.tree@;
        proof {
            self.front.lemma_position(tree);
            self.back.lemma_position(tree);
        }
        let back_key = match self.back.peek_back_entry(Ghost(self.tree@)) {
            Some((key, _value)) => key,
            None => {
                self.finish();
                return None;
            },
        };
        let entry = match self.front.next_entry(Ghost(self.tree@)) {
            Some(entry) => entry,
            None => {
                self.finish();
                return None;
            },
        };
        let ghost all = tree.entries();
        let ghost low = old(self).front.front_position(tree);
        let ghost high = old(self).back.back_position(tree);
        match entry.0.compare(back_key) {
            KeyOrder::Less => {
                proof {
                    assert(all[high - 1].0 == back_key@);
                    assert(low < high - 1);
                    assert(self@ =~= old(self)@.drop_first());
                }
                Some(entry)
            },
            KeyOrder::Equal => {
                proof {
                    assert(all[high - 1].0 == back_key@);
                    assert(low == high - 1);
                }
                self.finish();
                Some(entry)
            },
            KeyOrder::Greater => {
                proof {
                    assert(all[high - 1].0 == back_key@);
                    assert(low >= high);
                }
                self.finish();
                None
            },
        }
    }

    /// Yields the greatest entry within the bounds not yet yielded.
    pub fn next_back(&mut self) -> (entry: Option<(&'a K, &'a V)>)
        requires
            old(self).wf(),
        ensures
            final(self).wf(),
            old(self)@.len() == 0 ==> entry is None && final(self)@ == old(self)@,
            old(self)@.len() > 0 ==> (entry matches Some((key, value)) && (key@, *value)
                == old(self)@.last() && final(self)@ == old(self)@.drop_last()),
    {
        if let TraversalState::Finished = self.state {
            return None;
        }
        let ghost tree = self.tree@;
        proof {
            self.front.lemma_position(tree);
            self.back.lemma_position(tree);
        }
        let front_key = match self.front.peek_entry(Ghost(self.tree@)) {
            Some((key, _value)) => key,
            None => {
                self.finish();
                return None;
            },
        };
        let entry = match self.back.next_back_entry(Ghost(self.tree@)) {
            Some(entry) => entry,
            None => {
                self.finish();
                return None;
            },
        };
        let ghost all = tree.entries();
        let ghost low = old(self).front.front_position(tree);
        let ghost high = old(self).back.back_position(tree);
        match front_key.compare(entry.0) {
            KeyOrder::Less => {
                proof {
                    assert(all[low].0 == front_key@);
                    assert(low < high - 1);
                    assert(self@ =~= old(self)@.drop_last());
                }
                Some(entry)
            },
            KeyOrder::Equal => {
                proof {
                    assert(all[low].0 == front_key@);
                    assert(low == high - 1);
                }
                self.finish();
                Some(entry)
            },
            KeyOrder::Greater => {
                proof {
                    assert(all[low].0 == front_key@);
                    assert(low >= high);
                }
                self.finish();
                None
            },
        }
    }
}

} // verus!
