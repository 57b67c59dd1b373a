//! A 16-way trie over 64-bit keys with lookup by Hamming distance.

use vstd::prelude::*;
use crate::hamming::{count_ones, hamming, popcount, lemma_popcount_bound};

verus! {

/// Levels of the tree: one per 4-bit nibble of a 64-bit key.
pub const TREE_DEPTH: usize = 16;

/// Branches of each node: one per value of a nibble.
pub const BRANCH_FACTOR: u64 = 16;

/// Nibble `level` of `key`, counting from the least significant.
pub open spec fn nibble(key: u64, level: nat) -> u64 {
    (key >> ((4 * level) as u64)) & 15
}

/// `a` and `b` have the same nibbles from `level` up.
pub open spec fn agree_from(a: u64, b: u64, level: nat) -> bool
    decreases 16 - level,
{
    if level >= 16 {
        true
    } else {
        nibble(a, level) == nibble(b, level) && agree_from(a, b, level + 1)
    }
}

/// Sum over the nibbles from `level` up of the bits in which `q` and `k` differ.
pub open spec fn nibble_distance(q: u64, k: u64, level: nat) -> nat
    decreases 16 - level,
{
    if level >= 16 {
        0
    } else {
        popcount(nibble(q, level) ^ nibble(k, level)) + nibble_distance(q, k, level + 1)
    }
}

/// What a search of `m` for a key within Hamming distance `max_diff` of `key` may give: a value
/// stored under such a key, or nothing when there is no such key.
pub open spec fn search_outcome<T>(m: Map<u64, T>, key: u64, max_diff: u8, r: Option<T>) -> bool {
    match r {
        Some(v) => exists|k: u64| #[trigger] m.contains_key(k) && m[k] == v && hamming(key, k) <= max_diff,
        None => forall|k: u64| #[trigger] m.contains_key(k) ==> hamming(key, k) > max_diff,
    }
}

/// `a` comes before `b` in the order the search visits keys: by nibble `level` first, then
/// by the following nibbles.
pub open spec fn search_before(a: u64, b: u64, level: nat) -> bool
    decreases 16 - level,
{
    if level >= 16 {
        false
    } else {
        nibble(a, level) < nibble(b, level) || (nibble(a, level) == nibble(b, level)
            && search_before(a, b, level + 1))
    }
}

/// `k` is the first key of `m` within Hamming distance `max_diff` of `key` in the order the
/// search visits keys.
pub open spec fn first_within<T>(m: Map<u64, T>, key: u64, max_diff: u8, k: u64) -> bool {
    &&& m.contains_key(k)
    &&& hamming(key, k) <= max_diff
    &&& forall|k2: u64|
        #[trigger] m.contains_key(k2) && hamming(key, k2) <= max_diff ==> !search_before(k2, k, 0)
}

/// What the search of `m` returns: the value of the first key within `max_diff` of `key`,
/// going through the nibbles of each level in ascending order, lowest nibble first.
pub open spec fn search_result<T>(m: Map<u64, T>, key: u64, max_diff: u8) -> Option<T> {
    if exists|k: u64| first_within(m, key, max_diff, k) {
        Some(m[choose|k: u64| first_within(m, key, max_diff, k)])
    } else {
        None
    }
}

proof fn lemma_before_agree(x: u64, a: u64, b: u64, level: nat)
    requires
        agree_from(a, b, level),
    ensures
        search_before(x, a, level) == search_before(x, b, level),
    decreases 16 - level,
{
    if level < 16 {
        lemma_before_agree(x, a, b, level + 1);
    }
}

proof fn lemma_not_before_either(a: u64, b: u64, level: nat)
    requires
        !search_before(a, b, level),
        !search_before(b, a, level),
    ensures
        agree_from(a, b, level),
    decreases 16 - level,
{
    if level < 16 {
        lemma_not_before_either(a, b, level + 1);
    }
}

/// A node of the trie. A node at depth `d` < 16 routes on nibble `d` of the key and holds no
/// value; a node at depth 16 holds the value of the one key whose path leads to it.
struct Node<T> {
    branches: Vec<Option<Box<Node<T>>>>,
    value: Option<T>,
}

spec fn node_wf<T>(n: &Node<T>, depth: nat) -> bool
    decreases 16 - depth,
{
    &&& depth <= 16
    &&& n.branches@.len() == 16
    &&& depth < 16 ==> n.value is None
    &&& depth < 16 ==> forall|i: int|
        0 <= i < 16 ==> match #[trigger] n.branches@[i] {
            Some(c) => node_wf(&*c, depth + 1),
            None => true,
        }
}

/// The value stored under `key` in the subtree `n` at `depth`, which reads nibbles `depth`..16.
spec fn node_get<T>(n: &Node<T>, depth: nat, key: u64) -> Option<T>
    decreases 16 - depth,
{
    if depth >= 16 {
        n.value
    } else {
        match n.branches@[nibble(key, depth) as int] {
            Some(c) => node_get(&*c, depth + 1, key),
            None => None,
        }
    }
}

/// A 16-way trie over 64-bit keys, for lookup of a stored key within a Hamming distance.
pub struct HashTree<T> {
    root: Node<T>,
    count: usize,
}

impl<T> View for HashTree<T> {
    type V = Map<u64, T>;

    /// The stored values by key.
    closed spec fn view(&self) -> Map<u64, T> {
        Map::new(
            |k: u64| node_get(&self.root, 0, k) is Some,
            |k: u64| node_get(&self.root, 0, k)->Some_0,
        )
    }
}

proof fn lemma_nibble_bound(k: u64, level: nat)
    requires
        level < 16,
    ensures
        nibble(k, level) < 16,
{
    let s = (4 * level) as u64;
    assert((k >> s) & 15 < 16) by (bit_vector);
}

proof fn lemma_agree_refl(a: u64, level: nat)
    ensures
        agree_from(a, a, level),
    decreases 16 - level,
{
    if level < 16 {
        lemma_agree_refl(a, level + 1);
    }
}

proof fn lemma_agree_all(a: u64, b: u64)
    requires
        agree_from(a, b, 0),
    ensures
        a == b,
{
    reveal_with_fuel(agree_from, 17);
    assert(nibble(a, 0) == (a >> 0u64) & 15);
    assert(nibble(b, 0) == (b >> 0u64) & 15);
    assert(nibble(a, 1) == (a >> 4u64) & 15);
    assert(nibble(b, 1) == (b >> 4u64) & 15);
    assert(nibble(a, 2) == (a >> 8u64) & 15);
    assert(nibble(b, 2) == (b >> 8u64) & 15);
    assert(nibble(a, 3) == (a >> 12u64) & 15);
    assert(nibble(b, 3) == (b >> 12u64) & 15);
    assert(nibble(a, 4) == (a >> 16u64) & 15);
    assert(nibble(b, 4) == (b >> 16u64) & 15);
    assert(nibble(a, 5) == (a >> 20u64) & 15);
    assert(nibble(b, 5) == (b >> 20u64) & 15);
    assert(nibble(a, 6) == (a >> 24u64) & 15);
    assert(nibble(b, 6) == (b >> 24u64) & 15);
    assert(nibble(a, 7) == (a >> 28u64) & 15);
    assert(nibble(b, 7) == (b >> 28u64) & 15);
    assert(nibble(a, 8) == (a >> 32u64) & 15);
    assert(nibble(b, 8) == (b >> 32u64) & 15);
    assert(nibble(a, 9) == (a >> 36u64) & 15);
    assert(nibble(b, 9) == (b >> 36u64) & 15);
    assert(nibble(a, 10) == (a >> 40u64) & 15);
    assert(nibble(b, 10) == (b >> 40u64) & 15);
    assert(nibble(a, 11) == (a >> 44u64) & 15);
    assert(nibble(b, 11) == (b >> 44u64) & 15);
    assert(nibble(a, 12) == (a >> 48u64) & 15);
    assert(nibble(b, 12) == (b >> 48u64) & 15);
    assert(nibble(a, 13) == (a >> 52u64) & 15);
    assert(nibble(b, 13) == (b >> 52u64) & 15);
    assert(nibble(a, 14) == (a >> 56u64) & 15);
    assert(nibble(b, 14) == (b >> 56u64) & 15);
    assert(nibble(a, 15) == (a >> 60u64) & 15);
    assert(nibble(b, 15) == (b >> 60u64) & 15);
    assert(a == b) by (bit_vector)
        requires
            (a >> 0u64) & 15 == (b >> 0u64) & 15,
            (a >> 4u64) & 15 == (b >> 4u64) & 15,
            (a >> 8u64) & 15 == (b >> 8u64) & 15,
            (a >> 12u64) & 15 == (b >> 12u64) & 15,
            (a >> 16u64) & 15 == (b >> 16u64) & 15,
            (a >> 20u64) & 15 == (b >> 20u64) & 15,
            (a >> 24u64) & 15 == (b >> 24u64) & 15,
            (a >> 28u64) & 15 == (b >> 28u64) & 15,
            (a >> 32u64) & 15 == (b >> 32u64) & 15,
            (a >> 36u64) & 15 == (b >> 36u64) & 15,
            (a >> 40u64) & 15 == (b >> 40u64) & 15,
            (a >> 44u64) & 15 == (b >> 44u64) & 15,
            (a >> 48u64) & 15 == (b >> 48u64) & 15,
            (a >> 52u64) & 15 == (b >> 52u64) & 15,
            (a >> 56u64) & 15 == (b >> 56u64) & 15,
            (a >> 60u64) & 15 == (b >> 60u64) & 15,
    ;
}

proof fn lemma_get_agree<T>(n: &Node<T>, depth: nat, a: u64, b: u64)
    requires
        node_wf(n, depth),
        agree_from(a, b, depth),
    ensures
        node_get(n, depth, a) == node_get(n, depth, b),
    decreases 16 - depth,
{
    if depth < 16 {
        lemma_nibble_bound(a, depth);
        match n.branches@[nibble(a, depth) as int] {
            Some(c) => lemma_get_agree(&*c, depth + 1, a, b),
            None => {},
        }
    }
}

proof fn lemma_distance_agree(q: u64, a: u64, b: u64, level: nat)
    requires
        agree_from(a, b, level),
    ensures
        nibble_distance(q, a, level) == nibble_distance(q, b, level),
    decreases 16 - level,
{
    if level < 16 {
        lemma_distance_agree(q, a, b, level + 1);
    }
}

/// `k` with nibble `level` replaced by `i`.
spec fn with_nibble(k: u64, level: nat, i: u64) -> u64 {
    (k & !(15u64 << ((4 * level) as u64))) | (i << ((4 * level) as u64))
}

proof fn lemma_with_nibble_agree(k: u64, level: nat, i: u64, from: nat)
    requires
        level < from,
        i < 16,
    ensures
        agree_from(with_nibble(k, level, i), k, from),
    decreases 16 - from,
{
    if from < 16 {
        let s = (4 * level) as u64;
        let t = (4 * from) as u64;
        assert((((k & !(15u64 << s)) | (i << s)) >> t) & 15 == (k >> t) & 15) by (bit_vector)
            requires
                s + 4 <= t,
                t <= 60,
                i < 16,
        ;
        lemma_with_nibble_agree(k, level, i, from + 1);
    }
}

proof fn lemma_with_nibble_at(k: u64, level: nat, i: u64)
    requires
        level < 16,
        i < 16,
    ensures
        nibble(with_nibble(k, level, i), level) == i,
{
    let s = (4 * level) as u64;
    assert((((k & !(15u64 << s)) | (i << s)) >> s) & 15 == i) by (bit_vector)
        requires
            s <= 60,
            i < 16,
    ;
}

proof fn lemma_popcount_nibble_split(y: u64)
    ensures
        popcount(y) == popcount(y & 15) + popcount(y >> 4u64),
{
    let z = y & 15;
    assert(y & 1 == y % 2 && y >> 1 == y / 2) by (bit_vector);
    let y1 = y / 2;
    let y2 = y1 / 2;
    let y3 = y2 / 2;
    let y4 = y3 / 2;
    let z1 = z / 2;
    let z2 = z1 / 2;
    let z3 = z2 / 2;
    let z4 = z3 / 2;
    assert(popcount(y) == (y % 2) as nat + popcount(y1));
    assert(popcount(y1) == (y1 % 2) as nat + popcount(y2));
    assert(popcount(y2) == (y2 % 2) as nat + popcount(y3));
    assert(popcount(y3) == (y3 % 2) as nat + popcount(y4));
    assert(popcount(z) == (z % 2) as nat + popcount(z1));
    assert(popcount(z1) == (z1 % 2) as nat + popcount(z2));
    assert(popcount(z2) == (z2 % 2) as nat + popcount(z3));
    assert(popcount(z3) == (z3 % 2) as nat + popcount(z4));
    assert(z4 == 0 && y4 == y >> 4u64 && z % 2 == y % 2 && z1 % 2 == y1 % 2 && z2 % 2 == y2 % 2
        && z3 % 2 == y3 % 2) by (bit_vector)
        requires
            z == y & 15,
            y1 == y / 2,
            y2 == y1 / 2,
            y3 == y2 / 2,
            y4 == y3 / 2,
            z1 == z / 2,
            z2 == z1 / 2,
            z3 == z2 / 2,
            z4 == z3 / 2,
    ;
}

/// The sum of the nibble differences from `level` up is the popcount of `x >> 4 * level`.
proof fn lemma_distance_popcount(q: u64, k: u64, level: nat)
    requires
        level <= 16,
    ensures
        nibble_distance(q, k, level) == popcount((q ^ k) >> ((4 * level) as u64)),
    decreases 16 - level,
{
    let x = q ^ k;
    let s = (4 * level) as u64;
    if level == 16 {
        assert(x >> 64u64 == 0) by (bit_vector);
    } else {
        lemma_distance_popcount(q, k, level + 1);
        let y = x >> s;
        lemma_popcount_nibble_split(y);
        assert(((q >> s) & 15) ^ ((k >> s) & 15) == ((q ^ k) >> s) & 15) by (bit_vector);
        assert((x >> s) >> 4u64 == x >> ((s + 4) as u64)) by (bit_vector)
            requires
                s <= 60,
        ;
    }
}

proof fn lemma_distance_is_hamming(q: u64, k: u64)
    ensures
        nibble_distance(q, k, 0) == hamming(q, k),
{
    lemma_distance_popcount(q, k, 0);
    assert((q ^ k) >> 0u64 == q ^ k) by (bit_vector);
}

impl<T> Node<T> {
    fn empty() -> (n: Node<T>)
        ensures
            forall|d: nat| d <= 16 ==> node_wf(&n, d),
            forall|d: nat, k: u64| #[trigger] node_get(&n, d, k) is None,
    {
        let mut branches: Vec<Option<Box<Node<T>>>> = Vec::with_capacity(16);
        let mut i: usize = 0;
        while i < 16
            invariant
                i <= 16,
                branches@.len() == i,
                forall|j: int| 0 <= j < i ==> #[trigger] branches@[j] is None,
            decreases 16 - i,
        {
            branches.push(None);
            i = i + 1;
        }
        let n = Node { branches, value: None };
        assert forall|d: nat| d <= 16 implies node_wf(&n, d) by {
            assert forall|i: int| 0 <= i < 16 implies match #[trigger] n.branches@[i] {
                Some(c) => node_wf(&*c, d + 1),
                None => true,
            } by {}
        }
        assert forall|d: nat, k: u64| #[trigger] node_get(&n, d, k) is None by {
            if d < 16 {
                lemma_nibble_bound(k, d);
            }
        }
        n
    }

    /// Stores `value` under `key` in the subtree at `depth`; tells whether a value was there.
    fn add_rec(&mut self, key: u64, value: T, depth: usize) -> (was: bool)
        requires
            node_wf(old(self), depth as nat),
        ensures
            node_wf(final(self), depth as nat),
            was == node_get(old(self), depth as nat, key) is Some,
            forall|k: u64|
                #[trigger] node_get(final(self), depth as nat, k) == if agree_from(
                    k,
                    key,
                    depth as nat,
                ) {
                    Some(value)
                } else {
                    node_get(old(self), depth as nat, k)
                },
        decreases 16 - depth,
    {
        if depth == TREE_DEPTH {
            let was = self.value.is_some();
            self.value = Some(value);
            return was;
        }
        let i = nibble_at(key, depth);
        let ghost old_node = *self;
        self.branches.push(None);
        let slot = self.branches.swap_remove(i as usize);
        assert(self.branches@ =~= old_node.branches@.update(i as int, None));
        let mut child: Node<T> = match slot {
            Some(b) => *b,
            None => Node::empty(),
        };
        let ghost old_child = child;
        assert(node_wf(&old_child, depth as nat + 1));
        let was = child.add_rec(key, value, depth + 1);
        self.branches.set(i as usize, Some(Box::new(child)));
        proof {
            assert(self.branches@ =~= old_node.branches@.update(i as int, Some(Box::new(child))));
            assert forall|j: int| 0 <= j < 16 implies match #[trigger] self.branches@[j] {
                Some(c) => node_wf(&*c, depth as nat + 1),
                None => true,
            } by {}
            assert forall|k: u64|
                #[trigger] node_get(self, depth as nat, k) == if agree_from(k, key, depth as nat) {
                    Some(value)
                } else {
                    node_get(&old_node, depth as nat, k)
                } by {
                lemma_nibble_bound(k, depth as nat);
                if nibble(k, depth as nat) == i {
                    assert(node_get(self, depth as nat, k) == node_get(&child, depth as nat + 1, k));
                    assert(node_get(&old_node, depth as nat, k) == node_get(
                        &old_child,
                        depth as nat + 1,
                        k,
                    ));
                }
            }
        }
        was
    }

    /// A value stored under a key whose nibbles from `depth` up differ from those of `key` in
    /// at most `budget` bits, or none if there is no such key.
    fn find_rec(&self, key: u64, budget: u8, depth: usize) -> (r: Option<&T>)
        requires
            node_wf(self, depth as nat),
        ensures
            r matches Some(v) ==> exists|k: u64|
                #[trigger] node_get(self, depth as nat, k) == Some(*v) && nibble_distance(
                    key,
                    k,
                    depth as nat,
                ) <= budget && forall|k2: u64|
                    #[trigger] node_get(self, depth as nat, k2) is Some && nibble_distance(
                        key,
                        k2,
                        depth as nat,
                    ) <= budget ==> !search_before(k2, k, depth as nat),
            r is None ==> forall|k: u64|
                node_get(self, depth as nat, k) is Some ==> nibble_distance(key, k, depth as nat)
                    > budget,
        decreases 16 - depth,
    {
        if depth == TREE_DEPTH {
            match &self.value {
                Some(v) => {
                    assert(node_get(self, depth as nat, key) == Some(*v));
                    return Some(v);
                },
                None => {
                    return None;
                },
            }
        }
        let q = nibble_at(key, depth);
        let mut i: u64 = 0;
        while i < BRANCH_FACTOR
            invariant
                depth < 16,
                node_wf(self, depth as nat),
                q == nibble(key, depth as nat),
                q < 16,
                i <= 16,
                forall|k: u64|
                    node_get(self, depth as nat, k) is Some && nibble(k, depth as nat) < i
                        ==> nibble_distance(key, k, depth as nat) > budget,
            decreases 16 - i,
        {
            let diff = count_ones(q ^ i);
            proof {
                lemma_popcount_bound(q ^ i);
                assert(q ^ i < 16) by (bit_vector)
                    requires
                        q < 16,
                        i < 16,
                ;
            }
            if diff <= budget as u32 {
                match &self.branches[i as usize] {
                    Some(child) => {
                        let found = child.find_rec(key, budget - diff as u8, depth + 1);
                        match found {
                            Some(v) => {
                                proof {
                                    let d1 = depth as nat + 1;
                                    let k0 = choose|k: u64|
                                        #[trigger] node_get(&**child, d1, k) == Some(*v)
                                            && nibble_distance(key, k, d1) <= budget - diff
                                            && forall|k2: u64|
                                            #[trigger] node_get(&**child, d1, k2) is Some
                                                && nibble_distance(key, k2, d1) <= budget - diff
                                                ==> !search_before(k2, k, d1);
                                    let k1 = with_nibble(k0, depth as nat, i);
                                    lemma_with_nibble_agree(k0, depth as nat, i, d1);
                                    lemma_with_nibble_at(k0, depth as nat, i);
                                    lemma_get_agree(&**child, d1, k1, k0);
                                    lemma_distance_agree(key, k1, k0, d1);
                                    assert(node_get(self, depth as nat, k1) == Some(*v));
                                    assert(nibble_distance(key, k1, depth as nat) <= budget);
                                    assert forall|k2: u64|
                                        #[trigger] node_get(self, depth as nat, k2) is Some
                                            && nibble_distance(key, k2, depth as nat) <= budget
                                            implies !search_before(k2, k1, depth as nat) by {
                                        lemma_nibble_bound(k2, depth as nat);
                                        if nibble(k2, depth as nat) == i {
                                            assert(node_get(self, depth as nat, k2) == node_get(
                                                &**child,
                                                d1,
                                                k2,
                                            ));
                                            assert(popcount(
                                                nibble(key, depth as nat) ^ nibble(k2, depth as nat),
                                            ) == diff);
                                            lemma_before_agree(k2, k1, k0, d1);
                                        }
                                    }
                                }
                                return Some(v);
                            },
                            None => {
                                proof {
                                    assert forall|k: u64|
                                        node_get(self, depth as nat, k) is Some && nibble(
                                            k,
                                            depth as nat,
                                        ) < i + 1 implies nibble_distance(key, k, depth as nat)
                                        > budget by {
                                        if nibble(k, depth as nat) == i {
                                            assert(node_get(self, depth as nat, k) == node_get(
                                                &**child,
                                                depth as nat + 1,
                                                k,
                                            ));
                                            assert(popcount(
                                                nibble(key, depth as nat) ^ nibble(k, depth as nat),
                                            ) == diff);
                                            assert(node_get(&**child, depth as nat + 1, k) is Some);
                                            assert(nibble_distance(key, k, depth as nat + 1) > budget - diff);
                                            assert(nibble_distance(key, k, depth as nat) == diff + nibble_distance(key, k, depth as nat + 1));
                                        }
                                    }
                                }
                            },
                        }
                    },
                    None => {
                        proof {
                            assert forall|k: u64|
                                node_get(self, depth as nat, k) is Some && nibble(k, depth as nat)
                                    < i + 1 implies nibble_distance(key, k, depth as nat)
                                > budget by {
                                if nibble(k, depth as nat) == i {
                                    assert(node_get(self, depth as nat, k) is None);
                                }
                            }
                        }
                    },
                }
            } else {
                proof {
                    assert forall|k: u64|
                        node_get(self, depth as nat, k) is Some && nibble(k, depth as nat) < i + 1
                            implies nibble_distance(key, k, depth as nat) > budget by {
                        if nibble(k, depth as nat) == i {
                            assert(popcount(nibble(key, depth as nat) ^ nibble(k, depth as nat))
                                == diff);
                        }
                    }
                }
            }
            i = i + 1;
        }
        proof {
            assert forall|k: u64| node_get(self, depth as nat, k) is Some implies nibble_distance(
                key,
                k,
                depth as nat,
            ) > budget by {
                lemma_nibble_bound(k, depth as nat);
            }
        }
        None
    }
}

/// Nibble `level` of `key`.
fn nibble_at(key: u64, level: usize) -> (r: u64)
    requires
        level < 16,
    ensures
        r == nibble(key, level as nat),
        r < 16,
{
    proof {
        lemma_nibble_bound(key, level as nat);
    }
    (key >> (4 * level as u64)) & 15
}

impl<T> HashTree<T> {
    /// The tree's structure is sound and its count is the number of stored keys.
    pub closed spec fn wf(&self) -> bool {
        &&& node_wf(&self.root, 0)
        &&& self@.dom().finite()
        &&& self.count == self@.len()
    }

    /// An empty tree.
    pub fn new() -> (t: HashTree<T>)
        ensures
            t.wf(),
            t@ == Map::<u64, T>::empty(),
            t@.dom().finite(),
    {
        let t = HashTree { root: Node::empty(), count: 0 };
        assert(t@ =~= Map::<u64, T>::empty());
        t
    }

    /// Stores `value` under `key`, replacing a value stored there before.
    pub fn add(&mut self, key: u64, value: T)
        requires
            old(self).wf(),
            old(self)@.contains_key(key) || old(self)@.len() < usize::MAX,
        ensures
            final(self).wf(),
            final(self)@ == old(self)@.insert(key, value),
            final(self)@.dom().finite(),
    {
        let ghost before = self@;
        let was = self.root.add_rec(key, value, 0);
        proof {
            assert forall|k: u64| agree_from(k, key, 0) <==> k == key by {
                if agree_from(k, key, 0) {
                    lemma_agree_all(k, key);
                }
                if k == key {
                    lemma_agree_refl(k, 0);
                }
            }
            assert(self@ =~= before.insert(key, value));
        }
        if !was {
            self.count = self.count + 1;
        }
    }

    /// A value stored under a key within Hamming distance `max_diff` of `key`, or none when
    /// no stored key is that close. Of several such values, the search returns the first it
    /// meets, going through the nibbles of each level in ascending order.
    pub fn contains(&self, key: u64, max_diff: u8) -> (r: Option<&T>)
        requires
            self.wf(),
        ensures
            search_outcome(
                self@,
                key,
                max_diff,
                match r {
                    Some(v) => Some(*v),
                    None => None,
                },
            ),
            search_result(self@, key, max_diff) == match r {
                Some(v) => Some(*v),
                None => None,
            },
    {
        let r = self.root.find_rec(key, max_diff, 0);
        proof {
            assert forall|k: u64| #[trigger] hamming(key, k) == nibble_distance(key, k, 0) by {
                lemma_distance_is_hamming(key, k);
            }
            if let Some(v) = r {
                let k = choose|k: u64|
                    #[trigger] node_get(&self.root, 0, k) == Some(*v) && nibble_distance(key, k, 0)
                        <= max_diff && forall|k2: u64|
                        #[trigger] node_get(&self.root, 0, k2) is Some && nibble_distance(key, k2, 0)
                            <= max_diff ==> !search_before(k2, k, 0);
                assert(self@.contains_key(k) && self@[k] == *v);
                assert forall|k2: u64|
                    #[trigger] self@.contains_key(k2) && hamming(key, k2) <= max_diff implies !search_before(k2, k, 0) by {
                    assert(node_get(&self.root, 0, k2) is Some);
                }
                assert(first_within(self@, key, max_diff, k));
                let c = choose|c: u64| first_within(self@, key, max_diff, c);
                assert(!search_before(c, k, 0));
                assert(!search_before(k, c, 0));
                lemma_not_before_either(c, k, 0);
                lemma_agree_all(c, k);
            } else {
                assert forall|k: u64| !first_within(self@, key, max_diff, k) by {
                    if self@.contains_key(k) {
                        assert(node_get(&self.root, 0, k) is Some);
                    }
                }
            }
        }
        r
    }

    /// Number of stored values.
    pub fn len(&self) -> (r: usize)
        requires
            self.wf(),
        ensures
            r == self@.len(),
    {
        self.count
    }
}

proof fn lemma_hamming_zero(a: u64, b: u64)
    requires
        hamming(a, b) == 0,
    ensures
        a == b,
{
    let x = a ^ b;
    if x != 0 {
        assert(x % 2 == 1 || x / 2 != 0) by (bit_vector)
            requires
                x != 0,
        ;
        if x % 2 != 1 {
            lemma_popcount_positive(x / 2);
        }
    }
    assert(a == b) by (bit_vector)
        requires
            a ^ b == 0,
    ;
}

proof fn lemma_popcount_positive(x: u64)
    requires
        x != 0,
    ensures
        popcount(x) > 0,
    decreases x,
{
    if x % 2 == 0 {
        lemma_popcount_positive(x / 2);
    }
}

/// After `key` is stored with `value`, an exact search (distance 0) for `key` finds `value`.
pub proof fn lemma_exact_search_after_add<T>(m: Map<u64, T>, key: u64, value: T, r: Option<T>)
    requires
        search_outcome(m.insert(key, value), key, 0, r),
    ensures
        r == Some(value),
{
    let m2 = m.insert(key, value);
    assert(m2.contains_key(key));
    crate::hamming::lemma_hamming_self(key);
    if let Some(v) = r {
        let k = choose|k: u64| #[trigger] m2.contains_key(k) && m2[k] == v && hamming(key, k) <= 0;
        lemma_hamming_zero(key, k);
    }
}

proof fn lemma_before_irreflexive(a: u64, level: nat)
    ensures
        !search_before(a, a, level),
    decreases 16 - level,
{
    if level < 16 {
        lemma_before_irreflexive(a, level + 1);
    }
}

/// After `key` is stored with `value` in any tree, the search result for `key` at distance 0
/// is `value`.
pub proof fn lemma_exact_search_result_after_add<T>(m: Map<u64, T>, key: u64, value: T)
    ensures
        search_result(m.insert(key, value), key, 0) == Some(value),
{
    let m2 = m.insert(key, value);
    crate::hamming::lemma_hamming_self(key);
    lemma_before_irreflexive(key, 0);
    assert forall|k2: u64| #[trigger] m2.contains_key(k2) && hamming(key, k2) <= 0 implies !search_before(k2, key, 0) by {
        lemma_hamming_zero(key, k2);
    }
    assert(first_within(m2, key, 0, key));
    let c = choose|c: u64| first_within(m2, key, 0, c);
    lemma_hamming_zero(key, c);
}

/// After `key` is stored, a search for any `probe` within Hamming distance `max_diff` of `key`
/// finds some value (not necessarily the one stored under `key`).
pub proof fn lemma_near_search_after_add<T>(
    m: Map<u64, T>,
    key: u64,
    value: T,
    probe: u64,
    max_diff: u8,
    r: Option<T>,
)
    requires
        hamming(probe, key) <= max_diff,
        search_outcome(m.insert(key, value), probe, max_diff, r),
    ensures
        r is Some,
{
    assert(m.insert(key, value).contains_key(key));
}

} // verus!
