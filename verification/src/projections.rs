//! Key and value projections of a tree's ordered traversal.
use vstd::prelude::*;

use crate::iter::Iter;
use crate::key::OrderedKey;

verus! {

/// The keys of a run of entries.
pub open spec fn run_keys<KV, V>(run: Seq<(KV, V)>) -> Seq<KV> {
    run.map_values(|entry: (KV, V)| entry.0)
}

/// The values of a run of entries.
pub open spec fn run_values<KV, V>(run: Seq<(KV, V)>) -> Seq<V> {
    run.map_values(|entry: (KV, V)| entry.1)
}

/// Immutable iterator over a tree's keys in key order.
pub struct Keys<'a, K, V, const CAPACITY: usize> {
    inner: Iter<'a, K, V, CAPACITY>,
}

impl<'a, K: OrderedKey, V, const CAPACITY: usize> View for Keys<'a, K, V, CAPACITY> {
    /// The keys not yet yielded from either end, in order.
    type V = Seq<K::V>;

    closed spec fn view(&self) -> Seq<K::V> {
        run_keys(self.inner@)
    }
}

impl<'a, K: OrderedKey, V, const CAPACITY: usize> Keys<'a, K, V, CAPACITY> {
    pub closed spec fn wf(&self) -> bool {
        self.inner.wf()
    }

    /// The keys of the entries that `entries` has left.
    pub(crate) fn new(entries: Iter<'a, K, V, CAPACITY>) -> (keys: Self)
        requires
            entries.wf(),
        ensures
            keys.wf(),
            keys@ == run_keys(entries@),
    {
        Self { inner: entries }
    }

    /// Yields the least key not yet yielded.
    pub fn next(&mut self) -> (key: Option<&'a K>)
        requires
            old(self).wf(),
        ensures
            final(self).wf(),
            old(self)@.len() == 0 ==> key is None && final(self)@ == old(self)@,
            old(self)@.len() > 0 ==> (key matches Some(key) && key@ == old(self)@[0] && final(self)@
                == old(self)@.drop_first()),
    {
        let entry = self.inner.next();
        proof {
            if old(self).inner@.len() > 0 {
                assert(run_keys(old(self).inner@.drop_first()) =~= run_keys(old(self).inner@).drop_first());
            }
        }
        match entry {
            Some((key, _value)) => Some(key),
            None => None,
        }
    }

    /// Yields the greatest key not yet yielded.
    pub fn next_back(&mut self) -> (key: Option<&'a K>)
        requires
            old(self).wf(),
        ensures
            final(self).wf(),
            old(self)@.len() == 0 ==> key is None && final(self)@ == old(self)@,
            old(self)@.len() > 0 ==> (key matches Some(key) && key@ == old(self)@.last() && final(self)@
                == old(self)@.drop_last()),
    {
        let entry = self.inner.next_back();
        proof {
            if old(self).inner@.len() > 0 {
                assert(run_keys(old(self).inner@.drop_last()) =~= run_keys(old(self).inner@).drop_last());
            }
        }
        match entry {
            Some((key, _value)) => Some(key),
            None => None,
        }
    }

    /// The exact number of keys left, as lower and upper bounds.
    pub fn size_hint(&self) -> (hint: (usize, Option<usize>))
        requires
            self.wf(),
        ensures
            hint.0 == self@.len(),
            hint.1 == Some(hint.0),
    {
        self.inner.size_hint()
    }

    /// The number of keys left.
    pub fn len(&self) -> (count: usize)
        requires
            self.wf(),
        ensures
            count == self@.len(),
    {
        self.inner.len()
    }
}

/// Immutable iterator over a tree's values in key order.
pub struct Values<'a, K, V, const CAPACITY: usize> {
    inner: Iter<'a, K, V, CAPACITY>,
}

impl<'a, K: OrderedKey, V, const CAPACITY: usize> View for Values<'a, K, V, CAPACITY> {
    /// The values not yet yielded from either end, in key order.
    type V = Seq<V>;

    closed spec fn view(&self) -> Seq<V> {
        run_values(self.inner@)
    }
}

impl<'a, K: OrderedKey, V, const CAPACITY: usize> Values<'a, K, V, CAPACITY> {
    pub closed spec fn wf(&self) -> bool {
        self.inner.wf()
    }

    /// The values of the entries that `entries` has left.
    pub(crate) fn new(entries: Iter<'a, K, V, CAPACITY>) -> (values: Self)
        requires
            entries.wf(),
        ensures
            values.wf(),
            values@ == run_values(entries@),
    {
        Self { inner: entries }
    }

    /// Yields the value of the least key not yet visited.
    pub fn next(&mut self) -> (value: Option<&'a V>)
        requires
            old(self).wf(),
        ensures
            final(self).wf(),
            old(self)@.len() == 0 ==> value is None && final(self)@ == old(self)@,
            old(self)@.len() > 0 ==> (value matches Some(value) && *value == old(self)@[0]
                && final(self)@ == old(self)@.drop_first()),
    {
        let entry = self.inner.next();
        proof {
            if old(self).inner@.len() > 0 {
                assert(run_values(old(self).inner@.drop_first()) =~= run_values(old(self).inner@).drop_first());
            }
        }
        match entry {
            Some((_key, value)) => Some(value),
            None => None,
        }
    }

    /// Yields the value of the greatest key not yet visited.
    pub fn next_back(&mut self) -> (value: Option<&'a V>)
        requires
            old(self).wf(),
        ensures
            final(self).wf(),
            old(self)@.len() == 0 ==> value is None && final(self)@ == old(self)@,
            old(self)@.len() > 0 ==> (value matches Some(value) && *value == old(self)@.last()
                && final(self)@ == old(self)@.drop_last()),
    {
        let entry = self.inner.next_back();
        proof {
            if old(self).inner@.len() > 0 {
                assert(run_values(old(self).inner@.drop_last()) =~= run_values(old(self).inner@).drop_last());
            }
        }
        match entry {
            Some((_key, value)) => Some(value),
            None => None,
        }
    }

    /// The exact number of values left, as lower and upper bounds.
    pub fn size_hint(&self) -> (hint: (usize, Option<usize>))
        requires
            self.wf(),
        ensures
            hint.0 == self@.len(),
            hint.1 == Some(hint.0),
    {
        self.inner.size_hint()
    }

    /// The number of values left.
    pub fn len(&self) -> (count: usize)
        requires
            self.wf(),
        ensures
            count == self@.len(),
    {
        self.inner.len()
    }
}

} // verus!
