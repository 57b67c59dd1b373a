//! An exact map joined with a hash tree.

use vstd::prelude::*;
use vstd::utf8::encode_utf8;
use vstd::string::StringSliceAdditionalSpecFns;
use std::collections::HashMap;
use crate::hamming::{hamming, lemma_hamming_symmetric};
use crate::hash::{HashMethod, digest};
use crate::simhasher::SimHasher;
use crate::tree::{HashTree, search_outcome, search_result};

verus! {

broadcast use vstd::std_specs::hash::group_hash_axioms;

/// The hash under which a key is filed in the exact index.
pub open spec fn key_digest(key: Seq<char>) -> u64 {
    digest(HashMethod::XXHash, encode_utf8(key))
}

/// The map from key to value that a list of entries stands for.
pub open spec fn entries_map<V>(es: Seq<(String, V)>) -> Map<Seq<char>, V>
    decreases es.len(),
{
    if es.len() == 0 {
        Map::empty()
    } else {
        entries_map(es.drop_last()).insert(es.last().0@, es.last().1)
    }
}

/// No two entries have the same key.
pub open spec fn keys_unique<V>(es: Seq<(String, V)>) -> bool {
    forall|i: int, j: int| 0 <= i < j < es.len() ==> (#[trigger] es[i]).0@ != (#[trigger] es[j]).0@
}

/// What one call of `maybe_insert_close_or` does to the exact map (`items`) and the tree
/// (`tree`), for a key whose fingerprint is `fp`, and what it returns (`r`).
/// A known key keeps its value. A new key close to a stored fingerprint adopts the value the
/// tree search finds (`search_result`) and leaves the tree alone. Any other new key gets a new value, filed under the key
/// and under its fingerprint.
pub open spec fn close_insert_outcome<V>(
    items: Map<Seq<char>, V>,
    tree: Map<u64, V>,
    key: Seq<char>,
    fp: u64,
    max_dist: u8,
    items2: Map<Seq<char>, V>,
    tree2: Map<u64, V>,
    r: V,
) -> bool {
    if items.contains_key(key) {
        r == items[key] && items2 == items && tree2 == tree
    } else if exists|k: u64| #[trigger] tree.contains_key(k) && hamming(fp, k) <= max_dist {
        search_outcome(tree, fp, max_dist, Some(r)) && search_result(tree, fp, max_dist) == Some(r)
            && items2 == items.insert(key, r) && tree2 == tree
    } else {
        items2 == items.insert(key, r) && tree2 == tree.insert(fp, r)
    }
}

proof fn lemma_entries_map_has<V>(es: Seq<(String, V)>, j: int)
    requires
        keys_unique(es),
        0 <= j < es.len(),
    ensures
        entries_map(es).contains_key(es[j].0@),
        entries_map(es)[es[j].0@] == es[j].1,
    decreases es.len(),
{
    if j < es.len() - 1 {
        let front = es.drop_last();
        assert(keys_unique(front)) by {
            assert forall|a: int, b: int| 0 <= a < b < front.len() implies (#[trigger] front[a]).0@
                != (#[trigger] front[b]).0@ by {
                assert(es[a] == front[a] && es[b] == front[b]);
            }
        }
        lemma_entries_map_has(front, j);
        assert(es[j].0@ != es[es.len() - 1].0@);
        assert(front[j] == es[j]);
    }
}

proof fn lemma_entries_map_update<V>(es: Seq<(String, V)>, j: int, v: V)
    requires
        keys_unique(es),
        0 <= j < es.len(),
    ensures
        keys_unique(es.update(j, (es[j].0, v))),
        entries_map(es.update(j, (es[j].0, v))) == entries_map(es).insert(es[j].0@, v),
    decreases es.len(),
{
    let es2 = es.update(j, (es[j].0, v));
    assert forall|a: int, b: int| 0 <= a < b < es2.len() implies (#[trigger] es2[a]).0@ != (#[trigger] es2[b]).0@ by {
        assert(es2[a].0 == es[a].0 && es2[b].0 == es[b].0);
    }
    let front = es.drop_last();
    assert(keys_unique(front)) by {
        assert forall|a: int, b: int| 0 <= a < b < front.len() implies (#[trigger] front[a]).0@
            != (#[trigger] front[b]).0@ by {
            assert(es[a] == front[a] && es[b] == front[b]);
        }
    }
    if j == es.len() - 1 {
        assert(es2.drop_last() =~= front);
        assert(entries_map(es2) =~= entries_map(es).insert(es[j].0@, v));
    } else {
        lemma_entries_map_update(front, j, v);
        assert(es2.drop_last() =~= front.update(j, (front[j].0, v)));
        assert(es[j].0@ != es.last().0@);
        assert(entries_map(es2) =~= entries_map(es).insert(es[j].0@, v));
    }
}

proof fn lemma_entries_map_lacks<V>(es: Seq<(String, V)>, k: Seq<char>)
    requires
        forall|j: int| 0 <= j < es.len() ==> (#[trigger] es[j]).0@ != k,
    ensures
        !entries_map(es).contains_key(k),
    decreases es.len(),
{
    if es.len() > 0 {
        let front = es.drop_last();
        assert forall|j: int| 0 <= j < front.len() implies (#[trigger] front[j]).0@ != k by {
            assert(front[j] == es[j]);
        }
        lemma_entries_map_lacks(front, k);
        assert(es[es.len() - 1].0@ != k);
    }
}

proof fn lemma_entries_map_len<V>(es: Seq<(String, V)>)
    requires
        keys_unique(es),
    ensures
        entries_map(es).dom().finite(),
        entries_map(es).len() == es.len(),
    decreases es.len(),
{
    if es.len() > 0 {
        let front = es.drop_last();
        assert(keys_unique(front)) by {
            assert forall|a: int, b: int| 0 <= a < b < front.len() implies (#[trigger] front[a]).0@
                != (#[trigger] front[b]).0@ by {
                assert(es[a] == front[a] && es[b] == front[b]);
            }
        }
        lemma_entries_map_len(front);
        assert forall|j: int| 0 <= j < front.len() implies (#[trigger] front[j]).0@ != es.last().0@ by {
            assert(front[j] == es[j]);
        }
        lemma_entries_map_lacks(front, es.last().0@);
    }
}

/// An exact map from text keys to values, joined with a hash tree from fingerprints to values:
/// a new key whose fingerprint is close to a stored one joins that entry's cluster.
pub struct SimMap<V> {
    entries: Vec<(String, V)>,
    index: HashMap<u64, Vec<usize>>,
    tree: HashTree<V>,
    hasher: SimHasher,
    max_dist: u8,
}

impl<V: Copy> SimMap<V> {
    /// The values by key.
    pub closed spec fn items(&self) -> Map<Seq<char>, V> {
        entries_map(self.entries@)
    }

    /// The cluster values by fingerprint.
    pub closed spec fn clusters(&self) -> Map<u64, V> {
        self.tree@
    }

    /// Largest Hamming distance between the fingerprint of a new key and the fingerprint of
    /// the cluster it joins.
    pub closed spec fn max_distance(&self) -> u8 {
        self.max_dist
    }

    /// Largest Hamming distance between the fingerprint of a new key and the fingerprint of
    /// the cluster it joins.
    pub fn max_dist(&self) -> (r: u8)
        ensures
            r == self.max_distance(),
    {
        self.max_dist
    }

    /// The hasher that gives keys their fingerprints.
    pub closed spec fn sim_hasher(&self) -> SimHasher {
        self.hasher
    }

    /// The fingerprint of `key` under this map's hasher.
    pub open spec fn fingerprint_of(&self, key: Seq<char>) -> u64 {
        self.sim_hasher().fingerprint_of(key)
    }

    /// The entries, the index and the tree agree.
    pub closed spec fn wf(&self) -> bool {
        &&& self.tree.wf()
        &&& self.tree@.dom().finite()
        &&& keys_unique(self.entries@)
        &&& forall|j: int|
            0 <= j < self.entries@.len() ==> {
                let h = key_digest((#[trigger] self.entries@[j]).0@);
                self.index@.contains_key(h) && self.index@[h]@.contains(j as usize)
            }
        &&& forall|h: u64, t: int|
            self.index@.contains_key(h) && 0 <= t < self.index@[h]@.len() ==> #[trigger] self.index@[h]@[t]
                < self.entries@.len()
    }

    /// An empty map whose keys get fingerprints from `hasher` and whose clusters span at most
    /// `max_dist` bits.
    pub fn new(hasher: SimHasher, max_dist: u8) -> (r: SimMap<V>)
        ensures
            r.wf(),
            r.items() == Map::<Seq<char>, V>::empty(),
            r.clusters() == Map::<u64, V>::empty(),
            r.sim_hasher() == hasher,
            r.max_distance() == max_dist,
    {
        let r = SimMap {
            entries: Vec::new(),
            index: HashMap::new(),
            tree: HashTree::new(),
            hasher,
            max_dist,
        };
        assert(r.items() =~= Map::<Seq<char>, V>::empty());
        r
    }

    /// An empty map as `new` makes it, with room for `capacity` keys.
    pub fn with_capacity(hasher: SimHasher, max_dist: u8, capacity: usize) -> (r: SimMap<V>)
        ensures
            r.wf(),
            r.items() == Map::<Seq<char>, V>::empty(),
            r.clusters() == Map::<u64, V>::empty(),
            r.sim_hasher() == hasher,
            r.max_distance() == max_dist,
    {
        let r = SimMap {
            entries: Vec::with_capacity(capacity),
            index: HashMap::with_capacity(capacity),
            tree: HashTree::new(),
            hasher,
            max_dist,
        };
        assert(r.items() =~= Map::<Seq<char>, V>::empty());
        r
    }

    /// Number of keys.
    pub fn len(&self) -> (r: usize)
        requires
            self.wf(),
        ensures
            r == self.items().len(),
    {
        proof {
            lemma_entries_map_len(self.entries@);
        }
        self.entries.len()
    }

    /// Whether the map has no key.
    pub fn is_empty(&self) -> (r: bool)
        requires
            self.wf(),
        ensures
            r == (self.items().len() == 0),
    {
        proof {
            lemma_entries_map_len(self.entries@);
        }
        self.entries.len() == 0
    }

    /// The entries, in the order their keys were first inserted.
    pub fn iter(&self) -> (r: &Vec<(String, V)>)
        requires
            self.wf(),
        ensures
            entries_map(r@) == self.items(),
            keys_unique(r@),
    {
        &self.entries
    }

    /// The hasher that gives keys their fingerprints.
    pub fn hasher(&self) -> (r: &SimHasher)
        ensures
            *r == self.sim_hasher(),
    {
        &self.hasher
    }

    fn key_hash(key: &String) -> (r: u64)
        ensures
            r == key_digest(key@),
    {
        HashMethod::XXHash.hash_bytes(key.as_str().as_bytes())
    }

    /// The position of the entry with key `key`.
    fn find(&self, key: &String) -> (r: Option<usize>)
        requires
            self.wf(),
        ensures
            r matches Some(j) ==> j < self.entries@.len() && self.entries@[j as int].0@ == key@,
            r is None ==> forall|j: int| 0 <= j < self.entries@.len() ==> (#[trigger] self.entries@[j]).0@ != key@,
    {
        let h = Self::key_hash(key);
        let n = self.entries.len();
        match self.index.get(&h) {
            Some(bucket) => {
                let mut t: usize = 0;
                while t < bucket.len()
                    invariant
                        self.wf(),
                        n == self.entries@.len(),
                        self.index@.contains_key(h),
                        *bucket == self.index@[h],
                        h == key_digest(key@),
                        t <= bucket@.len(),
                        forall|u: int| 0 <= u < t ==> (#[trigger] self.entries@[bucket@[u] as int]).0@ != key@,
                    decreases bucket@.len() - t,
                {
                    let j = bucket[t];
                    assert(self.index@[h]@[t as int] < self.entries@.len());
                    if self.entries[j].0.eq(key) {
                        return Some(j);
                    }
                    t = t + 1;
                }
                proof {
                    assert forall|j: int| 0 <= j < self.entries@.len() implies (#[trigger] self.entries@[j]).0@ != key@ by {
                        if self.entries@[j].0@ == key@ {
                            assert(self.index@[h]@.contains(j as usize));
                            let u = choose|u: int| 0 <= u < bucket@.len() && bucket@[u] == j as usize;
                            assert(self.entries@[bucket@[u] as int].0@ != key@);
                        }
                    }
                }
                None
            },
            None => {
                proof {
                    assert forall|j: int| 0 <= j < self.entries@.len() implies (#[trigger] self.entries@[j]).0@ != key@ by {
                        if self.entries@[j].0@ == key@ {
                            assert(self.index@.contains_key(key_digest(self.entries@[j].0@)));
                        }
                    }
                }
                None
            },
        }
    }

    /// Whether `key` is a key of the map.
    pub fn contains_key(&self, key: &String) -> (r: bool)
        requires
            self.wf(),
        ensures
            r == self.items().contains_key(key@),
    {
        match self.find(key) {
            Some(j) => {
                proof {
                    lemma_entries_map_has(self.entries@, j as int);
                }
                true
            },
            None => {
                proof {
                    lemma_entries_map_lacks(self.entries@, key@);
                }
                false
            },
        }
    }

    /// The value of `key`, if it is a key of the map.
    pub fn get(&self, key: &String) -> (r: Option<&V>)
        requires
            self.wf(),
        ensures
            r matches Some(v) ==> self.items().contains_key(key@) && self.items()[key@] == *v,
            r is None ==> !self.items().contains_key(key@),
    {
        match self.find(key) {
            Some(j) => {
                proof {
                    lemma_entries_map_has(self.entries@, j as int);
                }
                Some(&self.entries[j].1)
            },
            None => {
                proof {
                    lemma_entries_map_lacks(self.entries@, key@);
                }
                None
            },
        }
    }

    /// The value of `key`, to change in place, if it is a key of the map. The clusters keep
    /// the values they were given.
    pub fn get_mut(&mut self, key: &String) -> (r: Option<&mut V>)
        requires
            old(self).wf(),
        ensures
            r is None ==> !old(self).items().contains_key(key@) && *final(self) == *old(self),
            r matches Some(v) ==> {
                &&& old(self).items().contains_key(key@)
                &&& *v == old(self).items()[key@]
                &&& final(self).wf()
                &&& final(self).items() == old(self).items().insert(key@, *final(v))
                &&& final(self).clusters() == old(self).clusters()
                &&& final(self).sim_hasher() == old(self).sim_hasher()
                &&& final(self).max_distance() == old(self).max_distance()
            },
    {
        match self.find(key) {
            Some(j) => {
                let ghost before = *self;
                proof {
                    lemma_entries_map_has(self.entries@, j as int);
                }
                let entry = &mut self.entries[j];
                let value = &mut entry.1;
                proof {
                    let es = before.entries@;
                    let v = *final(value);
                    lemma_entries_map_update(es, j as int, v);
                }
                Some(value)
            },
            None => {
                proof {
                    lemma_entries_map_lacks(self.entries@, key@);
                }
                None
            },
        }
    }

    /// Files a new key with its value in the entries and the index.
    fn push_entry(&mut self, key: String, value: V)
        requires
            old(self).wf(),
            !old(self).items().contains_key(key@),
        ensures
            final(self).items() == old(self).items().insert(key@, value),
            final(self).entries@.len() == old(self).entries@.len() + 1,
            old(self).entries@.len() < usize::MAX,
            final(self).tree == old(self).tree,
            final(self).hasher == old(self).hasher,
            final(self).max_dist == old(self).max_dist,
            final(self).tree.wf(),
            keys_unique(final(self).entries@),
            forall|j: int|
                0 <= j < final(self).entries@.len() ==> {
                    let h = key_digest((#[trigger] final(self).entries@[j]).0@);
                    final(self).index@.contains_key(h) && final(self).index@[h]@.contains(j as usize)
                },
            forall|h: u64, t: int|
                final(self).index@.contains_key(h) && 0 <= t < final(self).index@[h]@.len()
                    ==> #[trigger] final(self).index@[h]@[t] < final(self).entries@.len(),
    {
        let ghost old_entries = self.entries@;
        let ghost old_index = self.index@;
        proof {
            assert forall|j: int| 0 <= j < old_entries.len() implies (#[trigger] old_entries[j]).0@ != key@ by {
                if old_entries[j].0@ == key@ {
                    lemma_entries_map_has(old_entries, j);
                }
            }
        }
        let h = Self::key_hash(&key);
        let j = self.entries.len();
        let mut bucket: Vec<usize> = match self.index.remove(&h) {
            Some(b) => b,
            None => Vec::new(),
        };
        let ghost old_bucket = bucket@;
        assert(old_index.contains_key(h) ==> old_bucket == old_index[h]@);
        bucket.push(j);
        self.index.insert(h, bucket);
        self.entries.push((key, value));
        let n = self.entries.len();
        proof {
            assert(self.entries@.drop_last() =~= old_entries);
            assert(self.index@ =~= old_index.insert(h, self.index@[h]));
            assert forall|a: int, b: int| 0 <= a < b < self.entries@.len() implies (#[trigger] self.entries@[a]).0@
                != (#[trigger] self.entries@[b]).0@ by {
                if b < old_entries.len() {
                    assert(old_entries[a] == self.entries@[a] && old_entries[b] == self.entries@[b]);
                } else {
                    assert(old_entries[a] == self.entries@[a]);
                }
            }
            assert forall|i: int| 0 <= i < self.entries@.len() implies {
                let hh = key_digest((#[trigger] self.entries@[i]).0@);
                self.index@.contains_key(hh) && self.index@[hh]@.contains(i as usize)
            } by {
                if i < old_entries.len() {
                    assert(old_entries[i] == self.entries@[i]);
                    let hh = key_digest(old_entries[i].0@);
                    if hh == h {
                        let u = choose|u: int| 0 <= u < old_index[hh]@.len() && old_index[hh]@[u] == i as usize;
                        assert(self.index@[h]@[u] == i as usize);
                    }
                } else {
                    assert(self.index@[h]@[old_bucket.len() as int] == j);
                }
            }
            assert forall|hh: u64, t: int|
                self.index@.contains_key(hh) && 0 <= t < self.index@[hh]@.len() implies #[trigger] self.index@[hh]@[t]
                    < self.entries@.len() by {
                if hh == h && t < old_bucket.len() {
                    assert(self.index@[hh]@[t] == old_index[hh]@[t]);
                }
            }
        }
    }

    /// The value of `key`. A known key keeps its value. A new key whose fingerprint lies
    /// within `max_dist` of a stored fingerprint adopts the value stored there. Any other new
    /// key gets the value `make_default` makes, stored under the key and under its
    /// fingerprint.
    pub fn maybe_insert_close_or<F: FnOnce() -> V>(&mut self, key: String, make_default: F) -> (r: V)
        requires
            old(self).wf(),
            make_default.requires(()),
            old(self).clusters().len() < usize::MAX,
        ensures
            final(self).wf(),
            final(self).clusters().len() <= old(self).clusters().len() + 1,
            final(self).sim_hasher() == old(self).sim_hasher(),
            final(self).max_distance() == old(self).max_distance(),
            close_insert_outcome(
                old(self).items(),
                old(self).clusters(),
                key@,
                old(self).fingerprint_of(key@),
                old(self).max_distance(),
                final(self).items(),
                final(self).clusters(),
                r,
            ),
            final(self).clusters() != old(self).clusters() ==> make_default.ensures((), r),
    {
        match self.find(&key) {
            Some(j) => {
                proof {
                    lemma_entries_map_has(self.entries@, j as int);
                }
                return self.entries[j].1;
            },
            None => {},
        }
        proof {
            lemma_entries_map_lacks(self.entries@, key@);
        }
        let fp = self.hasher.hash(key.as_str());
        let found: Option<V> = match self.tree.contains(fp, self.max_dist) {
            Some(v) => Some(*v),
            None => None,
        };
        match found {
            Some(v) => {
                self.push_entry(key, v);
                v
            },
            None => {
                let v = make_default();
                self.push_entry(key, v);
                self.tree.add(fp, v);
                v
            },
        }
    }
}

/// What `SimMap::entry` finds for a key: its value, or, for a new key, its fingerprint.
#[derive(Clone, Copy, Debug, PartialEq, Eq)]
pub enum SimEntry<V> {
    Occupied(V),
    Vacant(u64),
}

impl<V: Copy> SimMap<V> {
    /// The value of `key` when it is a key of the map, else the fingerprint of `key`, with
    /// which a caller can look for a close cluster and then choose where to file the key.
    pub fn entry(&self, key: &String) -> (r: SimEntry<V>)
        requires
            self.wf(),
        ensures
            r matches SimEntry::Occupied(v) ==> self.items().contains_key(key@) && self.items()[key@] == v,
            r matches SimEntry::Vacant(fp) ==> !self.items().contains_key(key@) && fp == self.fingerprint_of(key@),
    {
        match self.get(key) {
            Some(v) => SimEntry::Occupied(*v),
            None => SimEntry::Vacant(self.hasher.hash(key.as_str())),
        }
    }

    /// A cluster value stored under a fingerprint within `max_dist` of `fingerprint`, or none
    /// when no stored fingerprint is that close.
    pub fn close_value(&self, fingerprint: u64) -> (r: Option<V>)
        requires
            self.wf(),
        ensures
            search_outcome(self.clusters(), fingerprint, self.max_distance(), r),
            r == search_result(self.clusters(), fingerprint, self.max_distance()),
    {
        match self.tree.contains(fingerprint, self.max_dist) {
            Some(v) => Some(*v),
            None => None,
        }
    }

    /// Files a new key with `value` in the exact map only.
    pub fn insert_map_only(&mut self, key: String, value: V)
        requires
            old(self).wf(),
            !old(self).items().contains_key(key@),
        ensures
            final(self).wf(),
            final(self).items() == old(self).items().insert(key@, value),
            final(self).clusters() == old(self).clusters(),
            final(self).sim_hasher() == old(self).sim_hasher(),
            final(self).max_distance() == old(self).max_distance(),
    {
        self.push_entry(key, value);
    }

    /// Files `value` as a cluster under `fingerprint` only.
    pub fn insert_tree_only(&mut self, fingerprint: u64, value: V)
        requires
            old(self).wf(),
            old(self).clusters().contains_key(fingerprint) || old(self).clusters().len()
                < usize::MAX,
        ensures
            final(self).wf(),
            final(self).items() == old(self).items(),
            final(self).clusters() == old(self).clusters().insert(fingerprint, value),
            final(self).sim_hasher() == old(self).sim_hasher(),
            final(self).max_distance() == old(self).max_distance(),
    {
        self.tree.add(fingerprint, value);
    }

    /// Files a new key with `value` in the exact map, and `value` as a cluster under
    /// `fingerprint`.
    pub fn insert_both(&mut self, key: String, fingerprint: u64, value: V)
        requires
            old(self).wf(),
            !old(self).items().contains_key(key@),
            old(self).clusters().contains_key(fingerprint) || old(self).clusters().len()
                < usize::MAX,
        ensures
            final(self).wf(),
            final(self).items() == old(self).items().insert(key@, value),
            final(self).clusters() == old(self).clusters().insert(fingerprint, value),
            final(self).sim_hasher() == old(self).sim_hasher(),
            final(self).max_distance() == old(self).max_distance(),
    {
        self.push_entry(key, value);
        self.tree.add(fingerprint, value);
    }
}

/// A key asked for twice gets the same value both times, and the second call changes nothing.
pub proof fn lemma_repeat_insert<V>(
    items0: Map<Seq<char>, V>,
    tree0: Map<u64, V>,
    key: Seq<char>,
    fp: u64,
    max_dist: u8,
    items1: Map<Seq<char>, V>,
    tree1: Map<u64, V>,
    r1: V,
    items2: Map<Seq<char>, V>,
    tree2: Map<u64, V>,
    r2: V,
)
    requires
        close_insert_outcome(items0, tree0, key, fp, max_dist, items1, tree1, r1),
        close_insert_outcome(items1, tree1, key, fp, max_dist, items2, tree2, r2),
    ensures
        r2 == r1,
        items2 == items1,
        tree2 == tree1,
{
    assert(items1.contains_key(key) && items1[key] == r1);
}

/// A new key starts a cluster when no stored fingerprint is close to its own; a second new key
/// whose fingerprint lies within `max_dist` of the first's then gets the first key's value, as
/// long as no fingerprint stored before lies within `max_dist` of either.
pub proof fn lemma_near_key_joins<V>(
    items0: Map<Seq<char>, V>,
    tree0: Map<u64, V>,
    key1: Seq<char>,
    fp1: u64,
    key2: Seq<char>,
    fp2: u64,
    max_dist: u8,
    items1: Map<Seq<char>, V>,
    tree1: Map<u64, V>,
    r1: V,
    items2: Map<Seq<char>, V>,
    tree2: Map<u64, V>,
    r2: V,
)
    requires
        key1 != key2,
        !items0.contains_key(key1),
        !items0.contains_key(key2),
        hamming(fp1, fp2) <= max_dist,
        forall|k: u64| #[trigger] tree0.contains_key(k) ==> hamming(fp1, k) > max_dist && hamming(fp2, k) > max_dist,
        close_insert_outcome(items0, tree0, key1, fp1, max_dist, items1, tree1, r1),
        close_insert_outcome(items1, tree1, key2, fp2, max_dist, items2, tree2, r2),
    ensures
        r2 == r1,
{
    assert(tree1 == tree0.insert(fp1, r1));
    assert(!items1.contains_key(key2));
    lemma_hamming_symmetric(fp1, fp2);
    assert(tree1.contains_key(fp1));
    let k = choose|k: u64| #[trigger] tree1.contains_key(k) && tree1[k] == r2 && hamming(fp2, k) <= max_dist;
    if k != fp1 {
        assert(tree0.contains_key(k));
    }
}

} // verus!
