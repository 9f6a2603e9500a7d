//! Keys that a tree can order.
//!
//! A key type exposes a strict total order on its view, a run-time comparison
//! that agrees with that order, and a way to duplicate a key for use as a
//! branch separator.
use vstd::prelude::*;

verus! {

/// Result of comparing one key with another.
#[derive(Clone, Copy, Debug, PartialEq, Eq)]
pub enum KeyOrder {
    /// The first key sorts before the second.
    Less,
    /// Both keys have the same view.
    Equal,
    /// The first key sorts after the second.
    Greater,
}

/// A key with a strict total order on its view.
pub trait OrderedKey: View + Sized {
    /// The strict order on key views.
    spec fn less(a: Self::V, b: Self::V) -> bool;

    proof fn lemma_less_irreflexive(a: Self::V)
        ensures
            !Self::less(a, a),
    ;

    proof fn lemma_less_transitive(a: Self::V, b: Self::V, c: Self::V)
        requires
            Self::less(a, b),
            Self::less(b, c),
        ensures
            Self::less(a, c),
    ;

    proof fn lemma_less_total(a: Self::V, b: Self::V)
        ensures
            Self::less(a, b) || a == b || Self::less(b, a),
    ;

    /// Compares this key with another by their views.
    fn compare(&self, other: &Self) -> (order: KeyOrder)
        ensures
            match order {
                KeyOrder::Less => Self::less(self@, other@),
                KeyOrder::Equal => self@ == other@,
                KeyOrder::Greater => Self::less(other@, self@),
            },
    ;

    /// Produces a key with the same view.
    fn duplicate(&self) -> (copy: Self)
        ensures
            copy@ == self@,
    ;
}

pub broadcast proof fn lemma_key_less_transitive<K: OrderedKey>(a: K::V, b: K::V, c: K::V)
    requires
        #[trigger] K::less(a, b),
        #[trigger] K::less(b, c),
    ensures
        K::less(a, c),
{
    K::lemma_less_transitive(a, b, c);
}

pub broadcast proof fn lemma_key_less_irreflexive<K: OrderedKey>(a: K::V)
    ensures
        !#[trigger] K::less(a, a),
{
    K::lemma_less_irreflexive(a);
}

pub broadcast proof fn lemma_key_less_asymmetric<K: OrderedKey>(a: K::V, b: K::V)
    requires
        #[trigger] K::less(a, b),
    ensures
        !K::less(b, a),
{
    if K::less(b, a) {
        K::lemma_less_transitive(a, b, a);
        K::lemma_less_irreflexive(a);
    }
}

/// When two views are not ordered one way, they are equal or ordered the other way.
pub broadcast proof fn lemma_key_less_total<K: OrderedKey>(a: K::V, b: K::V)
    ensures
        #[trigger] K::less(a, b) || a == b || K::less(b, a),
{
    K::lemma_less_total(a, b);
}

pub broadcast group group_key_order {
    lemma_key_less_transitive,
    lemma_key_less_irreflexive,
    lemma_key_less_asymmetric,
}

impl OrderedKey for u64 {
    open spec fn less(a: u64, b: u64) -> bool {
        a < b
    }

    proof fn lemma_less_irreflexive(a: u64) {
    }

    proof fn lemma_less_transitive(a: u64, b: u64, c: u64) {
    }

    proof fn lemma_less_total(a: u64, b: u64) {
    }

    fn compare(&self, other: &Self) -> (order: KeyOrder)
        ensures
            order == (if *self < *other {
                KeyOrder::Less
            } else if *self == *other {
                KeyOrder::Equal
            } else {
                KeyOrder::Greater
            }),
    {
        if *self < *other {
            KeyOrder::Less
        } else if *self == *other {
            KeyOrder::Equal
        } else {
            KeyOrder::Greater
        }
    }

    fn duplicate(&self) -> (copy: Self) {
        *self
    }
}


/// Byte sequences in lexicographic order: a proper prefix sorts first.
pub open spec fn bytes_less(a: Seq<u8>, b: Seq<u8>) -> bool
    decreases a.len(),
{
    if a.len() == 0 {
        b.len() > 0
    } else if b.len() == 0 {
        false
    } else if a[0] < b[0] {
        true
    } else if a[0] > b[0] {
        false
    } else {
        bytes_less(a.drop_first(), b.drop_first())
    }
}

pub proof fn lemma_bytes_less_irreflexive(a: Seq<u8>)
    ensures
        !bytes_less(a, a),
    decreases a.len(),
{
    if a.len() > 0 {
        lemma_bytes_less_irreflexive(a.drop_first());
    }
}

pub proof fn lemma_bytes_less_transitive(a: Seq<u8>, b: Seq<u8>, c: Seq<u8>)
    requires
        bytes_less(a, b),
        bytes_less(b, c),
    ensures
        bytes_less(a, c),
    decreases a.len(),
{
    if a.len() > 0 && b.len() > 0 && c.len() > 0 && a[0] == b[0] && b[0] == c[0] {
        lemma_bytes_less_transitive(a.drop_first(), b.drop_first(), c.drop_first());
    }
}

pub proof fn lemma_bytes_less_total(a: Seq<u8>, b: Seq<u8>)
    ensures
        bytes_less(a, b) || a == b || bytes_less(b, a),
    decreases a.len(),
{
    if a.len() == 0 && b.len() == 0 {
        assert(a =~= b);
    } else if a.len() > 0 && b.len() > 0 && a[0] == b[0] {
        lemma_bytes_less_total(a.drop_first(), b.drop_first());
        if a.drop_first() == b.drop_first() {
            assert(a =~= seq![a[0]] + a.drop_first());
            assert(b =~= seq![b[0]] + b.drop_first());
        }
    }
}

/// Strings sort by the lexicographic order of their UTF-8 bytes.
impl OrderedKey for String {
    open spec fn less(a: Seq<char>, b: Seq<char>) -> bool {
        bytes_less(vstd::utf8::encode_utf8(a), vstd::utf8::encode_utf8(b))
    }

    proof fn lemma_less_irreflexive(a: Seq<char>) {
        lemma_bytes_less_irreflexive(vstd::utf8::encode_utf8(a));
    }

    proof fn lemma_less_transitive(a: Seq<char>, b: Seq<char>, c: Seq<char>) {
        lemma_bytes_less_transitive(
            vstd::utf8::encode_utf8(a),
            vstd::utf8::encode_utf8(b),
            vstd::utf8::encode_utf8(c),
        );
    }

    proof fn lemma_less_total(a: Seq<char>, b: Seq<char>) {
        lemma_bytes_less_total(vstd::utf8::encode_utf8(a), vstd::utf8::encode_utf8(b));
        if vstd::utf8::encode_utf8(a) == vstd::utf8::encode_utf8(b) {
            vstd::utf8::encode_utf8_decode_utf8(a);
            vstd::utf8::encode_utf8_decode_utf8(b);
        }
    }

    fn compare(&self, other: &Self) -> (order: KeyOrder) {
        let left = self.as_str().as_bytes();
        let right = other.as_str().as_bytes();
        let ghost a = left@;
        let ghost b = right@;
        let mut index: usize = 0;
        proof {
            assert(a.skip(0) =~= a);
            assert(b.skip(0) =~= b);
        }
        while index < left.len() && index < right.len()
            invariant
                a == left@,
                b == right@,
                a == vstd::utf8::encode_utf8(self@),
                b == vstd::utf8::encode_utf8(other@),
                index <= a.len(),
                index <= b.len(),
                a.take(index as int) == b.take(index as int),
                bytes_less(a, b) == bytes_less(a.skip(index as int), b.skip(index as int)),
                bytes_less(b, a) == bytes_less(b.skip(index as int), a.skip(index as int)),
            decreases a.len() - index,
        {
            let x = left[index];
            let y = right[index];
            assert(a.skip(index as int)[0] == x);
            assert(b.skip(index as int)[0] == y);
            if x < y {
                return KeyOrder::Less;
            } else if x > y {
                return KeyOrder::Greater;
            }
            proof {
                assert(a.skip(index as int).drop_first() =~= a.skip(index + 1));
                assert(b.skip(index as int).drop_first() =~= b.skip(index + 1));
                assert(a.take(index + 1) =~= a.take(index as int).push(x));
                assert(b.take(index + 1) =~= b.take(index as int).push(y));
            }
            index = index + 1;
        }
        if index < right.len() {
            KeyOrder::Less
        } else if index < left.len() {
            KeyOrder::Greater
        } else {
            proof {
                assert(a =~= a.take(index as int));
                assert(b =~= b.take(index as int));
                vstd::utf8::encode_utf8_decode_utf8(self@);
                vstd::utf8::encode_utf8_decode_utf8(other@);
            }
            KeyOrder::Equal
        }
    }

    fn duplicate(&self) -> (copy: Self) {
        self.clone()
    }
}

} // verus!
