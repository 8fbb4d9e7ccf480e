//! A cache that remembers, for each key, the value first computed for it.
use vstd::prelude::*;
use crate::adaptors::{plain_values, faithful_clone};

verus! {

/// The map that a list of entries with distinct keys stands for.
pub open spec fn entries_map<K, V>(entries: Seq<(K, V)>) -> Map<K, V>
    decreases entries.len(),
{
    if entries.len() == 0 {
        Map::empty()
    } else {
        entries_map(entries.drop_last()).insert(entries.last().0, entries.last().1)
    }
}

/// No key occurs twice.
pub open spec fn distinct_keys<K, V>(entries: Seq<(K, V)>) -> bool {
    forall|i: int, j: int| 0 <= i < j < entries.len() ==> #[trigger] entries[i].0 != #[trigger] entries[j].0
}

proof fn lemma_entries_map<K, V>(entries: Seq<(K, V)>)
    requires
        distinct_keys(entries),
    ensures
        forall|k: K|
            #[trigger] entries_map(entries).contains_key(k) <==> exists|i: int|
                0 <= i < entries.len() && entries[i].0 == k,
        forall|i: int| 0 <= i < entries.len() ==> #[trigger] entries_map(entries)[entries[i].0] == entries[i].1,
    decreases entries.len(),
{
    if entries.len() > 0 {
        let prev = entries.drop_last();
        lemma_entries_map(prev);
        let last = entries.last();
        assert forall|k: K|
            #[trigger] entries_map(entries).contains_key(k) <==> exists|i: int|
                0 <= i < entries.len() && entries[i].0 == k by {
            if entries_map(entries).contains_key(k) && k != last.0 {
                assert(entries_map(prev).contains_key(k));
                let i = choose|i: int| 0 <= i < prev.len() && prev[i].0 == k;
                assert(prev[i] == entries[i]);
                assert(entries[i].0 == k);
            }
            if exists|i: int| 0 <= i < entries.len() && entries[i].0 == k {
                let i = choose|i: int| 0 <= i < entries.len() && entries[i].0 == k;
                if i < prev.len() {
                    assert(prev[i] == entries[i]);
                    assert(prev[i].0 == k);
                    assert(entries_map(prev).contains_key(k));
                } else {
                    assert(entries[i] == last);
                }
            }
        }
        assert forall|i: int| 0 <= i < entries.len() implies #[trigger] entries_map(entries)[entries[i].0]
            == entries[i].1 by {
            if i < prev.len() {
                assert(prev[i] == entries[i]);
                assert(entries[i].0 != last.0);
                assert(entries_map(prev)[prev[i].0] == prev[i].1);
            } else {
                assert(entries[i] == last);
            }
        }
    }
}

/// What `get_or_insert_with` does to the remembered results, from `before` to `after`, when it
/// returns `r` for `key` (`computed` is what `f` returned, when it ran).
pub open spec fn cache_step<K, V>(before: Map<K, V>, key: K, r: V, after: Map<K, V>) -> bool {
    if before.contains_key(key) {
        r == before[key] && after == before
    } else {
        after == before.insert(key, r)
    }
}

/// A cache that remembers the result for each key.
#[derive(Debug)]
pub struct Cache<K, V> {
    entries: Vec<(K, V)>,
}

impl<K, V> Cache<K, V> {
    /// The remembered results.
    pub closed spec fn view(&self) -> Map<K, V> {
        entries_map(self.entries@)
    }

    /// The cache keeps one entry per key.
    pub closed spec fn wf(&self) -> bool {
        distinct_keys(self.entries@)
    }

    /// An empty cache.
    pub fn new() -> (r: Self)
        ensures
            r.wf(),
            r.view() == Map::<K, V>::empty(),
    {
        Cache { entries: Vec::new() }
    }
}

impl<K, V> Default for Cache<K, V> {
    fn default() -> (r: Self)
        ensures
            r.wf(),
            r.view() == Map::<K, V>::empty(),
    {
        Self::new()
    }
}

impl<K: Eq + Clone, V: Clone> Cache<K, V> {
    /// Returns the value remembered for `key`, or, when there is none, computes it with `f`,
    /// remembers it and returns it. `f` runs only for a key that has no value yet, so once a
    /// key has a value it keeps it.
    pub fn get_or_insert_with<F: FnOnce(K) -> V>(&mut self, key: K, f: F) -> (r: V)
        requires
            old(self).wf(),
            plain_values::<K>(),
            faithful_clone::<V>(),
            f.requires((key,)),
        ensures
            final(self).wf(),
            cache_step(old(self).view(), key, r, final(self).view()),
            !old(self).view().contains_key(key) ==> f.ensures((key,), r),
    {
        proof {
            lemma_entries_map(self.entries@);
            reveal(vstd::laws_eq::obeys_concrete_eq);
        }
        let n = self.entries.len();
        let mut i: usize = 0;
        while i < n
            invariant
                n == self.entries@.len(),
                self.entries@ == old(self).entries@,
                i <= n,
                vstd::laws_eq::obeys_concrete_eq::<K>(),
                faithful_clone::<V>(),
                distinct_keys(self.entries@),
                forall|j: int| 0 <= j < i ==> self.entries@[j].0 != key,
            decreases n - i,
        {
            reveal(vstd::laws_eq::obeys_concrete_eq);
            if self.entries[i].0 == key {
                let v = self.entries[i].1.clone();
                assert(vstd::pervasive::strictly_cloned(self.entries@[i as int].1, v));
                proof {
                    lemma_entries_map(self.entries@);
                }
                return v;
            }
            i = i + 1;
        }
        let k = key.clone();
        assert(vstd::pervasive::strictly_cloned(key, k));
        let v = f(key);
        let w = v.clone();
        assert(vstd::pervasive::strictly_cloned(v, w));
        let ghost before = self.entries@;
        self.entries.push((k, w));
        proof {
            assert(self.entries@.drop_last() == before);
            assert forall|a: int, b: int| 0 <= a < b < self.entries@.len() implies #[trigger] self.entries@[a].0
                != #[trigger] self.entries@[b].0 by {
                if b < before.len() {
                    assert(self.entries@[a] == before[a] && self.entries@[b] == before[b]);
                } else {
                    assert(self.entries@[a] == before[a]);
                }
            }
        }
        v
    }
}


/// Once a key has a value, it keeps it: after a call of `get_or_insert_with` for any key, every
/// key that had a value still has the same one, and the key asked for has the value returned.
/// So a second call for the same key returns the first value and does not run its `f`.
pub proof fn lemma_cache_keeps_values<K, V>(before: Map<K, V>, key: K, r: V, after: Map<K, V>)
    requires
        cache_step(before, key, r, after),
    ensures
        after.contains_key(key),
        after[key] == r,
        forall|k: K| #[trigger] before.contains_key(k) ==> after.contains_key(k) && after[k] == before[k],
{
}

} // verus!
