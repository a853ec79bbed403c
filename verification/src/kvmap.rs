//! A small association map with unique `u64` keys, viewed as a mathematical
//! map.  Entries keep their insertion order, which gives the store a
//! deterministic iteration order for draining updates.

use vstd::prelude::*;

verus! {

/// True iff every key occurs at most once in the entry sequence.
pub open spec fn keys_unique<V>(s: Seq<(u64, V)>) -> bool {
    forall|i: int, j: int|
        0 <= i < s.len() && 0 <= j < s.len() && i != j ==> (#[trigger] s[i]).0 != (#[trigger] s[j]).0
}

/// True iff some entry carries the key.
pub open spec fn seq_contains_key<V>(s: Seq<(u64, V)>, k: u64) -> bool {
    exists|i: int| 0 <= i < s.len() && (#[trigger] s[i]).0 == k
}

/// An index of an entry carrying the key (unique when `keys_unique` holds).
pub open spec fn index_of_key<V>(s: Seq<(u64, V)>, k: u64) -> int {
    choose|i: int| 0 <= i < s.len() && (#[trigger] s[i]).0 == k
}

/// The entry sequence read as a mathematical map.
pub open spec fn seq_as_map<V>(s: Seq<(u64, V)>) -> Map<u64, V> {
    Map::new(|k: u64| seq_contains_key(s, k), |k: u64| s[index_of_key(s, k)].1)
}

/// With unique keys, any entry carrying `k` is the entry `index_of_key` picks.
pub proof fn lemma_index_unique<V>(s: Seq<(u64, V)>, i: int)
    requires
        keys_unique(s),
        0 <= i < s.len(),
    ensures
        index_of_key(s, s[i].0) == i,
        seq_as_map(s)[s[i].0] == s[i].1,
        seq_contains_key(s, s[i].0),
{
    let k = s[i].0;
    assert(seq_contains_key(s, k));
    let j = index_of_key(s, k);
    assert(0 <= j < s.len() && s[j].0 == k);
}

/// Appending an entry with a fresh key inserts it into the map view.
pub proof fn lemma_push_fresh<V>(s: Seq<(u64, V)>, k: u64, v: V)
    requires
        keys_unique(s),
        !seq_contains_key(s, k),
    ensures
        keys_unique(s.push((k, v))),
        seq_as_map(s.push((k, v))) == seq_as_map(s).insert(k, v),
{
    let s2 = s.push((k, v));
    assert forall|i: int, j: int|
        0 <= i < s2.len() && 0 <= j < s2.len() && i != j implies (#[trigger] s2[i]).0 != (#[trigger] s2[j]).0 by {
        if i < s.len() && j < s.len() {
            assert(s2[i] == s[i] && s2[j] == s[j]);
        } else if i < s.len() {
            assert(s2[i] == s[i] && s2[j] == (k, v));
            assert(s[i].0 != k) by {
                if s[i].0 == k {
                    assert(seq_contains_key(s, k));
                }
            }
        } else {
            assert(s2[i] == (k, v) && s2[j] == s[j]);
            assert(s[j].0 != k) by {
                if s[j].0 == k {
                    assert(seq_contains_key(s, k));
                }
            }
        }
    }
    assert forall|k2: u64| #[trigger] seq_contains_key(s2, k2) == (seq_contains_key(s, k2) || k2 == k) by {
        if seq_contains_key(s, k2) {
            let i = index_of_key(s, k2);
            assert(s2[i].0 == k2);
        }
        if k2 == k {
            assert(s2[s.len() as int].0 == k2);
        }
        if seq_contains_key(s2, k2) && k2 != k {
            let i = index_of_key(s2, k2);
            if i < s.len() {
                assert(s[i].0 == k2);
            }
        }
    }
    assert forall|k2: u64| seq_contains_key(s2, k2) implies #[trigger] seq_as_map(s2)[k2]
        == seq_as_map(s).insert(k, v)[k2] by {
        let i = index_of_key(s2, k2);
        assert(0 <= i < s2.len() && s2[i].0 == k2);
        lemma_index_unique(s2, i);
        if k2 == k {
            assert(s2[s.len() as int].0 == k);
            lemma_index_unique(s2, s.len() as int);
            assert(i == s.len());
        } else {
            assert(i < s.len());
            lemma_index_unique(s, i);
        }
    }
    assert(seq_as_map(s2) =~= seq_as_map(s).insert(k, v));
}

/// Replacing the value at an index updates the map view at that entry's key.
pub proof fn lemma_update_value<V>(s: Seq<(u64, V)>, i: int, v: V)
    requires
        keys_unique(s),
        0 <= i < s.len(),
    ensures
        keys_unique(s.update(i, (s[i].0, v))),
        seq_as_map(s.update(i, (s[i].0, v))) == seq_as_map(s).insert(s[i].0, v),
{
    let k = s[i].0;
    let s2 = s.update(i, (k, v));
    assert forall|a: int, b: int|
        0 <= a < s2.len() && 0 <= b < s2.len() && a != b implies (#[trigger] s2[a]).0 != (#[trigger] s2[b]).0 by {
        assert(s2[a].0 == s[a].0 && s2[b].0 == s[b].0);
    }
    assert forall|k2: u64| #[trigger] seq_contains_key(s2, k2) == seq_contains_key(s, k2) by {
        if seq_contains_key(s, k2) {
            let a = index_of_key(s, k2);
            assert(s2[a].0 == k2);
        }
        if seq_contains_key(s2, k2) {
            let a = index_of_key(s2, k2);
            assert(s[a].0 == k2);
        }
    }
    assert forall|k2: u64| seq_contains_key(s2, k2) implies #[trigger] seq_as_map(s2)[k2]
        == seq_as_map(s).insert(k, v)[k2] by {
        let a = index_of_key(s2, k2);
        assert(0 <= a < s2.len() && s2[a].0 == k2);
        lemma_index_unique(s2, a);
        if k2 == k {
            lemma_index_unique(s2, i);
            assert(a == i);
        } else {
            assert(a != i);
            lemma_index_unique(s, a);
        }
    }
    assert(seq_contains_key(s2, k));
    assert(seq_as_map(s2) =~= seq_as_map(s).insert(k, v));
}

/// Every element of a filtered sequence is an element of the original.
pub proof fn lemma_filter_subset<T>(s: Seq<T>, pred: spec_fn(T) -> bool, i: int)
    requires
        0 <= i < s.filter(pred).len(),
    ensures
        s.contains(s.filter(pred)[i]),
    decreases s.len(),
{
    reveal(Seq::filter);
    if s.len() > 0 {
        let sub = s.drop_last().filter(pred);
        if i < sub.len() {
            lemma_filter_subset(s.drop_last(), pred, i);
            let j = choose|j: int| 0 <= j < s.drop_last().len() && s.drop_last()[j] == sub[i];
            assert(s[j] == sub[i]);
        } else {
            assert(s.filter(pred)[i] == s.last());
            assert(s[s.len() - 1] == s.last());
        }
    }
}

/// Filtering a sequence with unique keys keeps the keys unique.
pub proof fn lemma_filter_keys_unique<V>(s: Seq<(u64, V)>, pred: spec_fn((u64, V)) -> bool)
    requires
        keys_unique(s),
    ensures
        keys_unique(s.filter(pred)),
    decreases s.len(),
{
    reveal(Seq::filter);
    if s.len() > 0 {
        assert(keys_unique(s.drop_last())) by {
            assert(forall|i: int| 0 <= i < s.drop_last().len()
                ==> (#[trigger] s.drop_last()[i]) == s[i]);
        }
        lemma_filter_keys_unique(s.drop_last(), pred);
        let sub = s.drop_last().filter(pred);
        if pred(s.last()) {
            let out = sub.push(s.last());
            assert forall|i: int, j: int|
                0 <= i < out.len() && 0 <= j < out.len() && i != j
                implies (#[trigger] out[i]).0 != (#[trigger] out[j]).0 by {
                if i < sub.len() && j < sub.len() {
                    assert(out[i] == sub[i] && out[j] == sub[j]);
                } else {
                    let a = if i < sub.len() { i } else { j };
                    assert(out[a] == sub[a]);
                    lemma_filter_subset(s.drop_last(), pred, a);
                    let w = choose|w: int| 0 <= w < s.drop_last().len() && s.drop_last()[w] == sub[a];
                    assert(s[w] == sub[a]);
                    assert(s[s.len() - 1] == s.last());
                }
            }
        }
    }
}

/// An association list with unique keys and a `Map` view.
pub struct KvMap<V> {
    entries: Vec<(u64, V)>,
}

impl<V> KvMap<V> {
    /// The underlying entries, in insertion order.
    pub closed spec fn entries(self) -> Seq<(u64, V)> {
        self.entries@
    }

    pub open spec fn wf(self) -> bool {
        keys_unique(self.entries())
    }

    /// The map these entries denote.
    pub open spec fn as_map(self) -> Map<u64, V> {
        seq_as_map(self.entries())
    }

    pub open spec fn spec_contains(self, k: u64) -> bool {
        seq_contains_key(self.entries(), k)
    }

    pub fn new() -> (r: KvMap<V>)
        ensures
            r.wf(),
            r.entries() == Seq::<(u64, V)>::empty(),
            r.as_map() == Map::<u64, V>::empty(),
    {
        let r = KvMap { entries: Vec::new() };
        proof {
            assert(r.as_map() =~= Map::<u64, V>::empty());
        }
        r
    }

    pub fn len(&self) -> (r: usize)
        ensures
            r == self.entries().len(),
    {
        self.entries.len()
    }

    /// The index of the entry carrying `k`, if the key is present.
    pub fn index_of(&self, k: u64) -> (r: Option<usize>)
        requires
            self.wf(),
        ensures
            match r {
                Some(i) => i < self.entries().len() && self.entries()[i as int].0 == k
                    && i == index_of_key(self.entries(), k),
                None => !self.spec_contains(k),
            },
    {
        let mut i: usize = 0;
        let n = self.entries.len();
        while i < n
            invariant
                self.wf(),
                n == self.entries().len(),
                i <= n,
                forall|j: int| 0 <= j < i ==> (#[trigger] self.entries()[j]).0 != k,
            decreases n - i,
        {
            if self.entries[i].0 == k {
                proof {
                    lemma_index_unique(self.entries(), i as int);
                }
                return Some(i);
            }
            i += 1;
        }
        None
    }

    pub fn contains(&self, k: u64) -> (r: bool)
        requires
            self.wf(),
        ensures
            r == self.spec_contains(k),
    {
        self.index_of(k).is_some()
    }

    pub fn get(&self, k: u64) -> (r: Option<&V>)
        requires
            self.wf(),
        ensures
            match r {
                Some(v) => self.spec_contains(k) && *v == self.as_map()[k],
                None => !self.spec_contains(k),
            },
    {
        match self.index_of(k) {
            Some(i) => Some(&self.entries[i].1),
            None => None,
        }
    }

    /// Insert or replace: a fresh key is appended, an existing key keeps its
    /// position and takes the new value.
    pub fn insert(&mut self, k: u64, v: V)
        requires
            old(self).wf(),
        ensures
            final(self).wf(),
            final(self).as_map() == old(self).as_map().insert(k, v),
            !old(self).spec_contains(k) ==> final(self).entries() == old(self).entries().push((k, v)),
            old(self).spec_contains(k) ==> final(self).entries()
                == old(self).entries().update(index_of_key(old(self).entries(), k), (k, v)),
    {
        match self.index_of(k) {
            Some(i) => {
                proof {
                    lemma_update_value(self.entries(), i as int, v);
                }
                self.entries[i] = (k, v);
            }
            None => {
                proof {
                    lemma_push_fresh(self.entries(), k, v);
                }
                self.entries.push((k, v));
            }
        }
    }

    /// Give up the map and hand back its entries.
    pub fn into_entries(self) -> (r: Vec<(u64, V)>)
        ensures
            r@ == self.entries(),
    {
        self.entries
    }

    /// The entry at a position, for iteration.
    pub fn entry_at(&self, i: usize) -> (r: &(u64, V))
        requires
            i < self.entries().len(),
        ensures
            *r == self.entries()[i as int],
    {
        &self.entries[i]
    }

    /// Mutable access to the value at a position.  The map view afterwards
    /// is the old view with that entry's key bound to the final value.
    pub fn value_at_mut(&mut self, i: usize) -> (r: &mut V)
        requires
            old(self).wf(),
            i < old(self).entries().len(),
        ensures
            *r == old(self).entries()[i as int].1,
            final(self).entries() == old(self).entries().update(
                i as int,
                (old(self).entries()[i as int].0, *final(r)),
            ),
    {
        let entry = &mut self.entries[i];
        &mut entry.1
    }
}

} // verus!
