//! A map that records, for each key read or changed, the value it had before
//! its first change.

use std::collections::{BTreeMap, BTreeSet};
use vstd::prelude::*;

verus! {

/// A map from integer keys that keeps a trace of the original values of the
/// keys it was asked about or that were changed.
pub struct RecordingMap<V> {
    data: BTreeMap<u64, V>,
    updates: BTreeSet<u64>,
    trace: BTreeMap<u64, V>,
    initial: Ghost<Map<u64, V>>,
}

impl<V: Copy> RecordingMap<V> {
    /// The current entries.
    pub closed spec fn data_spec(&self) -> Map<u64, V> {
        self.data@
    }

    /// The keys changed so far.
    pub closed spec fn updates_spec(&self) -> Set<u64> {
        self.updates@
    }

    /// The recorded original values.
    pub closed spec fn trace_spec(&self) -> Map<u64, V> {
        self.trace@
    }

    /// The entries the map started with.
    pub closed spec fn initial_spec(&self) -> Map<u64, V> {
        self.initial@
    }

    /// The trace holds only original values, and a key that was never changed
    /// still has its original entry.
    pub closed spec fn wf(&self) -> bool {
        &&& forall|k: u64| #[trigger] self.trace@.contains_key(k) ==> self.initial@.contains_key(k) && self.trace@[k] == self.initial@[k]
        &&& forall|k: u64| !self.updates@.contains(k) ==> (#[trigger] self.data@.contains_key(k) <==> self.initial@.contains_key(k))
        &&& forall|k: u64| !self.updates@.contains(k) && #[trigger] self.data@.contains_key(k) ==> self.data@[k] == self.initial@[k]
        &&& self.updates@.finite()
    }

    /// An empty map.
    pub fn new() -> (r: Self)
        ensures
            r.wf(),
            r.data_spec() == Map::<u64, V>::empty(),
            r.initial_spec() == Map::<u64, V>::empty(),
            r.trace_spec() == Map::<u64, V>::empty(),
            r.updates_spec() == Set::<u64>::empty(),
    {
        RecordingMap { data: BTreeMap::new(), updates: BTreeSet::new(), trace: BTreeMap::new(), initial: Ghost(Map::empty()) }
    }

    /// A map with the given entries, a later entry for a key replacing an earlier one.
    pub fn from_entries(entries: &[(u64, V)]) -> (r: Self)
        ensures
            r.wf(),
            r.data_spec() == entries_map(entries@),
            r.initial_spec() == entries_map(entries@),
            r.trace_spec() == Map::<u64, V>::empty(),
            r.updates_spec() == Set::<u64>::empty(),
    {
        let mut data: BTreeMap<u64, V> = BTreeMap::new();
        let mut i: usize = 0;
        while i < entries.len()
            invariant
                i <= entries@.len(),
                data@ == entries_map(entries@.take(i as int)),
            decreases entries@.len() - i,
        {
            let (k, v) = entries[i];
            data.insert(k, v);
            proof {
                assert(entries@.take(i + 1).drop_last() =~= entries@.take(i as int));
            }
            i = i + 1;
        }
        assert(entries@.take(entries@.len() as int) =~= entries@);
        let r = RecordingMap { data, updates: BTreeSet::new(), trace: BTreeMap::new(), initial: Ghost(entries_map(entries@)) };
        assert(r.trace@ =~= Map::<u64, V>::empty());
        r
    }

    /// The current entries.
    pub fn inner(&self) -> (r: &BTreeMap<u64, V>)
        ensures
            r@ == self.data_spec(),
    {
        &self.data
    }

    /// The current entries and the trace.
    pub fn finalize(self) -> (r: (BTreeMap<u64, V>, BTreeMap<u64, V>))
        ensures
            r.0@ == self.data_spec(),
            r.1@ == self.trace_spec(),
    {
        (self.data, self.trace)
    }

    /// The value of `key`; a key never changed is recorded with its value.
    pub fn get(&mut self, key: u64) -> (r: Option<V>)
        requires
            old(self).wf(),
        ensures
            final(self).wf(),
            r == (if old(self).data_spec().contains_key(key) { Some(old(self).data_spec()[key]) } else { None::<V> }),
            final(self).data_spec() == old(self).data_spec(),
            final(self).updates_spec() == old(self).updates_spec(),
            final(self).initial_spec() == old(self).initial_spec(),
            final(self).trace_spec() == (if old(self).data_spec().contains_key(key) && !old(self).updates_spec().contains(key) {
                old(self).trace_spec().insert(key, old(self).data_spec()[key]) } else { old(self).trace_spec() }),
    {
        match self.data.get(&key) {
            Some(v) => {
                let value = *v;
                if !self.updates.contains(&key) {
                    self.trace.insert(key, value);
                }
                Some(value)
            },
            None => None,
        }
    }

    /// Whether `key` has a value; asking records it as [`get`](Self::get) does.
    pub fn contains_key(&mut self, key: u64) -> (r: bool)
        requires
            old(self).wf(),
        ensures
            final(self).wf(),
            r == old(self).data_spec().contains_key(key),
            final(self).data_spec() == old(self).data_spec(),
            final(self).updates_spec() == old(self).updates_spec(),
            final(self).initial_spec() == old(self).initial_spec(),
            final(self).trace_spec() == (if old(self).data_spec().contains_key(key) && !old(self).updates_spec().contains(key) {
                old(self).trace_spec().insert(key, old(self).data_spec()[key]) } else { old(self).trace_spec() }),
    {
        self.get(key).is_some()
    }

    /// The number of entries.
    pub fn len(&self) -> (r: usize)
        ensures
            r == self.data_spec().dom().len(),
    {
        self.data.len()
    }

    /// Whether there is no entry.
    pub fn is_empty(&self) -> (r: bool)
        ensures
            r == (self.data_spec().dom().len() == 0),
    {
        self.data.len() == 0
    }

    /// Sets `key` to `value` and gives back its previous value; the first change
    /// of a key records its previous value.
    pub fn insert(&mut self, key: u64, value: V) -> (r: Option<V>)
        requires
            old(self).wf(),
        ensures
            final(self).wf(),
            r == (if old(self).data_spec().contains_key(key) { Some(old(self).data_spec()[key]) } else { None::<V> }),
            final(self).data_spec() == old(self).data_spec().insert(key, value),
            final(self).updates_spec() == old(self).updates_spec().insert(key),
            final(self).initial_spec() == old(self).initial_spec(),
            final(self).trace_spec() == (if old(self).data_spec().contains_key(key) && !old(self).updates_spec().contains(key) {
                old(self).trace_spec().insert(key, old(self).data_spec()[key]) } else { old(self).trace_spec() }),
    {
        let new_update = self.updates.insert(key);
        let old_value = self.data.insert(key, value);
        match old_value {
            Some(v) => {
                if new_update {
                    self.trace.insert(key, v);
                }
            },
            None => {},
        }
        old_value
    }

    /// Removes `key` and gives back its value; the first change of a key records
    /// its previous value.
    pub fn remove(&mut self, key: u64) -> (r: Option<V>)
        requires
            old(self).wf(),
        ensures
            final(self).wf(),
            r == (if old(self).data_spec().contains_key(key) { Some(old(self).data_spec()[key]) } else { None::<V> }),
            final(self).data_spec() == old(self).data_spec().remove(key),
            final(self).updates_spec() == (if old(self).data_spec().contains_key(key) {
                old(self).updates_spec().insert(key) } else { old(self).updates_spec() }),
            final(self).initial_spec() == old(self).initial_spec(),
            final(self).trace_spec() == (if old(self).data_spec().contains_key(key) && !old(self).updates_spec().contains(key) {
                old(self).trace_spec().insert(key, old(self).data_spec()[key]) } else { old(self).trace_spec() }),
    {
        let old_value = self.data.remove(&key);
        match old_value {
            Some(v) => {
                let new_update = self.updates.insert(key);
                if new_update {
                    self.trace.insert(key, v);
                }
            },
            None => {},
        }
        old_value
    }

    /// The entries, each once, by increasing key.
    pub fn entries(&self) -> (r: Vec<(u64, V)>)
        ensures
            r@.len() == self.data_spec().dom().len(),
            forall|i: int| 0 <= i < r@.len() ==> self.data_spec().contains_key((#[trigger] r@[i]).0)
                && self.data_spec()[r@[i].0] == r@[i].1,
            forall|i: int, j: int| 0 <= i < j < r@.len() ==> (#[trigger] r@[i]).0 < (#[trigger] r@[j]).0,
    {
        broadcast use vstd::std_specs::btree::group_btree_axioms;
        let mut r: Vec<(u64, V)> = Vec::new();
        for k in it: self.data.keys()
            invariant
                r@.len() == it.index(),
                it.seq().unref().to_set() == self.data@.dom(),
                it.seq().unref().no_duplicates(),
                it.seq().len() == self.data@.dom().len(),
                vstd::std_specs::btree::increasing_seq(it.seq()),
                forall|i: int| 0 <= i < r@.len() ==> (#[trigger] r@[i]).0 == it.seq().unref()[i],
                forall|i: int| 0 <= i < r@.len() ==> self.data@.contains_key((#[trigger] r@[i]).0)
                    && self.data@[r@[i].0] == r@[i].1,
                forall|i: int, j: int| 0 <= i < j < r@.len() ==> (#[trigger] r@[i]).0 < (#[trigger] r@[j]).0,
        {
            proof {
                let s = it.seq().unref();
                assert(s[it.index() as int] == *k);
                assert(s.to_set().contains(s[it.index() as int]));
                assert forall|i: int| 0 <= i < r@.len() implies (#[trigger] r@[i]).0 < *k by {
                    assert(r@[i].0 == s[i]);
                    lemma_increasing_u64(it.seq(), i, it.index() as int);
                }
            }
            let v = *self.data.get(k).unwrap();
            r.push((*k, v));
        }
        r
    }

    /// The number of recorded original values.
    pub fn trace_len(&self) -> (r: usize)
        ensures
            r == self.trace_spec().dom().len(),
    {
        self.trace.len()
    }

    /// The number of keys changed so far.
    pub fn updates_len(&self) -> (r: usize)
        ensures
            r == self.updates_spec().len(),
    {
        self.updates.len()
    }
}

impl<V: Copy> Default for RecordingMap<V> {
    fn default() -> (r: Self)
        ensures
            r.wf(),
            r.data_spec() == Map::<u64, V>::empty(),
    {
        Self::new()
    }
}

/// The map that a list of entries builds, later entries replacing earlier ones.
pub open spec fn entries_map<V>(entries: Seq<(u64, V)>) -> Map<u64, V>
    decreases entries.len(),
{
    if entries.len() == 0 {
        Map::empty()
    } else {
        entries_map(entries.drop_last()).insert(entries.last().0, entries.last().1)
    }
}

/// The law of the trace: a key's recorded value is the one the map started with.
pub proof fn lemma_trace_is_original<V: Copy>(m: RecordingMap<V>, k: u64)
    requires
        m.wf(),
        m.trace_spec().contains_key(k),
    ensures
        m.initial_spec().contains_key(k),
        m.trace_spec()[k] == m.initial_spec()[k],
{
}

/// Keys listed in increasing order are increasing numbers.
proof fn lemma_increasing_u64(s: Seq<&u64>, i: int, j: int)
    requires
        vstd::std_specs::btree::increasing_seq(s),
        0 <= i < j < s.len(),
    ensures
        *s[i] < *s[j],
{
    broadcast use vstd::std_specs::btree::group_btree_axioms, vstd::laws_cmp::group_laws_cmp;
    assert(vstd::std_specs::cmp::OrdSpec::cmp_spec(&s[i], &s[j]) is Less);
}

} // verus!
