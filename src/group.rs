//! Grouping of near-duplicate texts through a `SimMap`.

use vstd::prelude::*;
use crate::feature::FeatureType;
use crate::hamming::{hamming, lemma_hamming_self, lemma_hamming_symmetric};
use crate::hash::HashMethod;
use crate::map::{close_insert_outcome, SimMap};
use crate::simhasher::{Error, SimHasher, fingerprint};

verus! {

/// The groups as sequences of indices.
pub open spec fn groups_view(groups: Seq<Vec<usize>>) -> Seq<Seq<usize>> {
    Seq::new(groups.len(), |g: int| groups[g]@)
}

/// Index `i` stands in one of the groups.
pub open spec fn in_some_group(groups: Seq<Seq<usize>>, i: int) -> bool {
    exists|g: int, a: int| 0 <= g < groups.len() && 0 <= a < groups[g].len() && #[trigger] groups[g][a] == i
}

/// Every index below `n` stands in exactly one group; each group is non-empty and ascending.
pub open spec fn is_grouping(groups: Seq<Seq<usize>>, n: nat) -> bool {
    &&& forall|g: int| 0 <= g < groups.len() ==> #[trigger] groups[g].len() > 0
    &&& forall|g: int, a: int, b: int|
        0 <= g < groups.len() && 0 <= a < b < groups[g].len() ==> #[trigger] groups[g][a]
            < #[trigger] groups[g][b]
    &&& forall|g: int, a: int| 0 <= g < groups.len() && 0 <= a < groups[g].len() ==> #[trigger] groups[g][a] < n
    &&& forall|i: int| 0 <= i < n ==> #[trigger] in_some_group(groups, i)
    &&& forall|g1: int, a1: int, g2: int, a2: int|
        0 <= g1 < groups.len() && 0 <= a1 < groups[g1].len() && 0 <= g2 < groups.len() && 0 <= a2
            < groups[g2].len() && #[trigger] groups[g1][a1] == #[trigger] groups[g2][a2] ==> g1 == g2
}

/// The groups follow the clustering of `maybe_insert_close_or` on the texts in order, where
/// `fps` are the texts' fingerprints: equal texts share a group; the first member of each group
/// lies farther than `max_dist` from the first member of every earlier group; every other
/// member repeats the text of an earlier member of its group or lies within `max_dist` of the
/// group's first member.
pub open spec fn groups_follow_clusters(
    groups: Seq<Seq<usize>>,
    texts: Seq<Seq<char>>,
    fps: Seq<u64>,
    max_dist: u8,
) -> bool {
    &&& forall|g1: int, a1: int, g2: int, a2: int|
        0 <= g1 < groups.len() && 0 <= a1 < groups[g1].len() && 0 <= g2 < groups.len() && 0 <= a2
            < groups[g2].len() && texts[#[trigger] groups[g1][a1] as int] == texts[#[trigger] groups[g2][a2] as int]
            ==> g1 == g2
    &&& forall|g1: int, g2: int|
        0 <= g1 < g2 < groups.len() ==> #[trigger] groups[g1][0] < #[trigger] groups[g2][0] && hamming(
            fps[groups[g1][0] as int],
            fps[groups[g2][0] as int],
        ) > max_dist
    &&& forall|g: int, a: int|
        0 <= g < groups.len() && 0 < a < groups[g].len() ==> (exists|b: int|
            0 <= b < a && texts[groups[g][b] as int] == texts[#[trigger] groups[g][a] as int]) || hamming(
            fps[groups[g][a] as int],
            fps[groups[g][0] as int],
        ) <= max_dist
}

/// The views of the texts.
pub open spec fn text_views(texts: Seq<String>) -> Seq<Seq<char>> {
    Seq::new(texts.len(), |i: int| texts[i]@)
}

/// The fingerprints of the texts under `hasher`.
pub open spec fn text_fingerprints(hasher: SimHasher, texts: Seq<String>) -> Seq<u64> {
    Seq::new(texts.len(), |i: int| hasher.fingerprint_of(texts[i]@))
}

/// What holds after the first `i` texts are grouped, with `items` and `clusters` the map's
/// contents.
spec fn grouping_inv(
    groups: Seq<Seq<usize>>,
    i: nat,
    tv: Seq<Seq<char>>,
    fps: Seq<u64>,
    max_dist: u8,
    items: Map<Seq<char>, usize>,
    clusters: Map<u64, usize>,
) -> bool {
    &&& groups.len() <= i
    &&& is_grouping(groups, i)
    &&& groups_follow_clusters(groups, tv, fps, max_dist)
    &&& forall|t: int| 0 <= t < i ==> #[trigger] items.contains_key(tv[t])
    &&& forall|g: int, a: int|
        0 <= g < groups.len() && 0 <= a < groups[g].len() ==> items[tv[#[trigger] groups[g][a] as int]] == g
    &&& forall|k: Seq<char>| #[trigger] items.contains_key(k) ==> exists|t: int| 0 <= t < i && tv[t] == k
    &&& forall|g: int|
        0 <= g < groups.len() ==> clusters.contains_key(fps[#[trigger] groups[g][0] as int])
            && clusters[fps[groups[g][0] as int]] == g
    &&& forall|k: u64|
        #[trigger] clusters.contains_key(k) ==> exists|g: int|
            0 <= g < groups.len() && k == fps[#[trigger] groups[g][0] as int]
}

proof fn lemma_group_step(
    groups: Seq<Seq<usize>>,
    i: nat,
    tv: Seq<Seq<char>>,
    fps: Seq<u64>,
    max_dist: u8,
    items: Map<Seq<char>, usize>,
    clusters: Map<u64, usize>,
    items2: Map<Seq<char>, usize>,
    clusters2: Map<u64, usize>,
    r: usize,
)
    requires
        grouping_inv(groups, i, tv, fps, max_dist, items, clusters),
        i < tv.len(),
        i <= usize::MAX,
        tv.len() == fps.len(),
        close_insert_outcome(items, clusters, tv[i as int], fps[i as int], max_dist, items2, clusters2, r),
        clusters2 != clusters ==> r == groups.len(),
    ensures
        r < groups.len() ==> grouping_inv(
            groups.update(r as int, groups[r as int].push(i as usize)),
            i + 1,
            tv,
            fps,
            max_dist,
            items2,
            clusters2,
        ),
        r >= groups.len() ==> r == groups.len() && grouping_inv(
            groups.push(seq![i as usize]),
            i + 1,
            tv,
            fps,
            max_dist,
            items2,
            clusters2,
        ),
{
    let key = tv[i as int];
    let fp = fps[i as int];
    lemma_hamming_self(fp);
    if items.contains_key(key) {
        let t = choose|t: int| 0 <= t < i && tv[t] == key;
        assert(in_some_group(groups, t));
        let (gt, at) = choose|g: int, a: int| 0 <= g < groups.len() && 0 <= a < groups[g].len() && #[trigger] groups[g][a] == t;
        assert(r == gt);
        lemma_join(groups, i, tv, fps, max_dist, items, clusters, items2, clusters2, r);
    } else if exists|k: u64| #[trigger] clusters.contains_key(k) && hamming(fp, k) <= max_dist {
        let k = choose|k: u64| #[trigger] clusters.contains_key(k) && clusters[k] == r && hamming(fp, k) <= max_dist;
        let gk = choose|g: int| 0 <= g < groups.len() && k == fps[#[trigger] groups[g][0] as int];
        assert(clusters[fps[groups[gk][0] as int]] == gk);
        assert(r == gk);
        lemma_join(groups, i, tv, fps, max_dist, items, clusters, items2, clusters2, r);
    } else {
        assert(clusters2.contains_key(fp));
        assert(!clusters.contains_key(fp));
        assert(r == groups.len());
        lemma_open(groups, i, tv, fps, max_dist, items, clusters, items2, clusters2, r);
    }
}

proof fn lemma_join(
    groups: Seq<Seq<usize>>,
    i: nat,
    tv: Seq<Seq<char>>,
    fps: Seq<u64>,
    max_dist: u8,
    items: Map<Seq<char>, usize>,
    clusters: Map<u64, usize>,
    items2: Map<Seq<char>, usize>,
    clusters2: Map<u64, usize>,
    r: usize,
)
    requires
        grouping_inv(groups, i, tv, fps, max_dist, items, clusters),
        i < tv.len(),
        i <= usize::MAX,
        tv.len() == fps.len(),
        close_insert_outcome(items, clusters, tv[i as int], fps[i as int], max_dist, items2, clusters2, r),
        r < groups.len(),
        items.contains_key(tv[i as int]) ==> r == items[tv[i as int]],
        !items.contains_key(tv[i as int]) ==> exists|k: u64|
            #[trigger] clusters.contains_key(k) && hamming(fps[i as int], k) <= max_dist && k == fps[groups[r as int][0] as int],
    ensures
        grouping_inv(
            groups.update(r as int, groups[r as int].push(i as usize)),
            i + 1,
            tv,
            fps,
            max_dist,
            items2,
            clusters2,
        ),
{
    let key = tv[i as int];
    let ng = groups.update(r as int, groups[r as int].push(i as usize));
    let last = groups[r as int].len() as int;
    assert(groups[r as int].len() > 0);
    assert(clusters2 == clusters);
    assert forall|g: int, a: int| 0 <= g < ng.len() && 0 <= a < ng[g].len() && !(g == r && a == last)
        implies #[trigger] ng[g][a] == groups[g][a] && groups[g][a] < i by {}
    assert(ng[r as int][last] == i);
    // is_grouping
    assert forall|g: int, a: int, b: int|
        0 <= g < ng.len() && 0 <= a < b < ng[g].len() implies #[trigger] ng[g][a] < #[trigger] ng[g][b] by {
        if g == r && b == last {
            assert(ng[g][a] == groups[g][a]);
        } else {
            assert(groups[g][a] < groups[g][b]);
        }
    }
    assert forall|t: int| 0 <= t < i + 1 implies #[trigger] in_some_group(ng, t) by {
        if t == i {
            assert(ng[r as int][last] == t);
        } else {
            assert(in_some_group(groups, t));
            let (g, a) = choose|g: int, a: int| 0 <= g < groups.len() && 0 <= a < groups[g].len() && #[trigger] groups[g][a] == t;
            assert(ng[g][a] == t);
        }
    }
    assert forall|g1: int, a1: int, g2: int, a2: int|
        0 <= g1 < ng.len() && 0 <= a1 < ng[g1].len() && 0 <= g2 < ng.len() && 0 <= a2 < ng[g2].len()
            && #[trigger] ng[g1][a1] == #[trigger] ng[g2][a2] implies g1 == g2 by {
        if !(g1 == r && a1 == last) && !(g2 == r && a2 == last) {
            assert(groups[g1][a1] == groups[g2][a2]);
        }
    }
    // the items
    assert forall|x: int| 0 <= x < i implies items.contains_key(tv[x]) && tv[x] != key ==> items2[tv[x]]
        == items[tv[x]] by {}
    assert forall|g1: int, a1: int, g2: int, a2: int|
        0 <= g1 < ng.len() && 0 <= a1 < ng[g1].len() && 0 <= g2 < ng.len() && 0 <= a2 < ng[g2].len()
            && tv[#[trigger] ng[g1][a1] as int] == tv[#[trigger] ng[g2][a2] as int] implies g1 == g2 by {
        if g1 == r && a1 == last && !(g2 == r && a2 == last) {
            assert(items.contains_key(tv[groups[g2][a2] as int]));
            assert(items[tv[groups[g2][a2] as int]] == g2);
        } else if g2 == r && a2 == last && !(g1 == r && a1 == last) {
            assert(items.contains_key(tv[groups[g1][a1] as int]));
            assert(items[tv[groups[g1][a1] as int]] == g1);
        } else if !(g1 == r && a1 == last) && !(g2 == r && a2 == last) {
            assert(tv[groups[g1][a1] as int] == tv[groups[g2][a2] as int]);
        }
    }
    assert forall|g1: int, g2: int| 0 <= g1 < g2 < ng.len() implies #[trigger] ng[g1][0] < #[trigger] ng[g2][0]
        && hamming(fps[ng[g1][0] as int], fps[ng[g2][0] as int]) > max_dist by {
        assert(ng[g1][0] == groups[g1][0] && ng[g2][0] == groups[g2][0]);
        assert(groups[g1][0] < groups[g2][0]);
    }
    assert forall|g: int, a: int| 0 <= g < ng.len() && 0 < a < ng[g].len() implies (exists|b: int|
        0 <= b < a && tv[ng[g][b] as int] == tv[#[trigger] ng[g][a] as int]) || hamming(
        fps[ng[g][a] as int],
        fps[ng[g][0] as int],
    ) <= max_dist by {
        assert(ng[g][0] == groups[g][0]);
        if g == r && a == last {
            if items.contains_key(key) {
                let t = choose|t: int| 0 <= t < i && tv[t] == key;
                assert(in_some_group(groups, t));
                let (gt, at) = choose|gg: int, aa: int| 0 <= gg < groups.len() && 0 <= aa < groups[gg].len() && #[trigger] groups[gg][aa] == t;
                assert(items[tv[groups[gt][at] as int]] == gt);
                assert(gt == r);
                assert(ng[g][at] == t);
            }
        } else {
            if !(hamming(fps[groups[g][a] as int], fps[groups[g][0] as int]) <= max_dist) {
                let b = choose|b: int| 0 <= b < a && tv[groups[g][b] as int] == tv[#[trigger] groups[g][a] as int];
                assert(ng[g][b] == groups[g][b]);
            }
        }
    }
    assert forall|t: int| 0 <= t < i + 1 implies #[trigger] items2.contains_key(tv[t]) by {}
    assert forall|g: int, a: int| 0 <= g < ng.len() && 0 <= a < ng[g].len() implies items2[tv[#[trigger] ng[g][a] as int]] == g by {
        if !(g == r && a == last) {
            assert(items.contains_key(tv[groups[g][a] as int]));
        }
    }
    assert forall|k: Seq<char>| #[trigger] items2.contains_key(k) implies exists|t: int| 0 <= t < i + 1 && tv[t] == k by {
        if k != key {
            let t = choose|t: int| 0 <= t < i && tv[t] == k;
        } else {
            assert(tv[i as int] == k);
        }
    }
    assert forall|g: int| 0 <= g < ng.len() implies clusters2.contains_key(fps[#[trigger] ng[g][0] as int])
        && clusters2[fps[ng[g][0] as int]] == g by {
        assert(ng[g][0] == groups[g][0]);
    }
    assert forall|k: u64| #[trigger] clusters2.contains_key(k) implies exists|g: int|
        0 <= g < ng.len() && k == fps[#[trigger] ng[g][0] as int] by {
        let g = choose|g: int| 0 <= g < groups.len() && k == fps[#[trigger] groups[g][0] as int];
        assert(ng[g][0] == groups[g][0]);
    }
}

proof fn lemma_open(
    groups: Seq<Seq<usize>>,
    i: nat,
    tv: Seq<Seq<char>>,
    fps: Seq<u64>,
    max_dist: u8,
    items: Map<Seq<char>, usize>,
    clusters: Map<u64, usize>,
    items2: Map<Seq<char>, usize>,
    clusters2: Map<u64, usize>,
    r: usize,
)
    requires
        grouping_inv(groups, i, tv, fps, max_dist, items, clusters),
        i < tv.len(),
        i <= usize::MAX,
        tv.len() == fps.len(),
        !items.contains_key(tv[i as int]),
        forall|k: u64| #[trigger] clusters.contains_key(k) ==> hamming(fps[i as int], k) > max_dist,
        items2 == items.insert(tv[i as int], r),
        clusters2 == clusters.insert(fps[i as int], r),
        r == groups.len(),
    ensures
        grouping_inv(groups.push(seq![i as usize]), i + 1, tv, fps, max_dist, items2, clusters2),
{
    let key = tv[i as int];
    let fp = fps[i as int];
    let ng = groups.push(seq![i as usize]);
    let n = groups.len() as int;
    assert forall|g: int, a: int| 0 <= g < n && 0 <= a < groups[g].len()
        implies #[trigger] ng[g][a] == groups[g][a] && groups[g][a] < i by {}
    assert(ng[n][0] == i);
    assert forall|g: int, a: int, b: int|
        0 <= g < ng.len() && 0 <= a < b < ng[g].len() implies #[trigger] ng[g][a] < #[trigger] ng[g][b] by {
        assert(groups[g][a] < groups[g][b]);
    }
    assert forall|t: int| 0 <= t < i + 1 implies #[trigger] in_some_group(ng, t) by {
        if t == i {
            assert(ng[n][0] == t);
        } else {
            assert(in_some_group(groups, t));
            let (g, a) = choose|g: int, a: int| 0 <= g < groups.len() && 0 <= a < groups[g].len() && #[trigger] groups[g][a] == t;
            assert(ng[g][a] == t);
        }
    }
    assert forall|g1: int, a1: int, g2: int, a2: int|
        0 <= g1 < ng.len() && 0 <= a1 < ng[g1].len() && 0 <= g2 < ng.len() && 0 <= a2 < ng[g2].len()
            && #[trigger] ng[g1][a1] == #[trigger] ng[g2][a2] implies g1 == g2 by {
        if g1 < n && g2 < n {
            assert(groups[g1][a1] == groups[g2][a2]);
        }
    }
    assert forall|g1: int, a1: int, g2: int, a2: int|
        0 <= g1 < ng.len() && 0 <= a1 < ng[g1].len() && 0 <= g2 < ng.len() && 0 <= a2 < ng[g2].len()
            && tv[#[trigger] ng[g1][a1] as int] == tv[#[trigger] ng[g2][a2] as int] implies g1 == g2 by {
        if g1 == n && g2 < n {
            assert(items.contains_key(tv[groups[g2][a2] as int]));
        } else if g2 == n && g1 < n {
            assert(items.contains_key(tv[groups[g1][a1] as int]));
        } else if g1 < n && g2 < n {
            assert(tv[groups[g1][a1] as int] == tv[groups[g2][a2] as int]);
        }
    }
    assert forall|g1: int, g2: int| 0 <= g1 < g2 < ng.len() implies #[trigger] ng[g1][0] < #[trigger] ng[g2][0]
        && hamming(fps[ng[g1][0] as int], fps[ng[g2][0] as int]) > max_dist by {
        if g2 == n {
            assert(clusters.contains_key(fps[groups[g1][0] as int]));
            lemma_hamming_symmetric(fp, fps[groups[g1][0] as int]);
        } else {
            assert(groups[g1][0] < groups[g2][0]);
        }
    }
    assert forall|g: int, a: int| 0 <= g < ng.len() && 0 < a < ng[g].len() implies (exists|b: int|
        0 <= b < a && tv[ng[g][b] as int] == tv[#[trigger] ng[g][a] as int]) || hamming(
        fps[ng[g][a] as int],
        fps[ng[g][0] as int],
    ) <= max_dist by {
        if !(hamming(fps[groups[g][a] as int], fps[groups[g][0] as int]) <= max_dist) {
            let b = choose|b: int| 0 <= b < a && tv[groups[g][b] as int] == tv[#[trigger] groups[g][a] as int];
            assert(ng[g][b] == groups[g][b]);
        }
    }
    assert forall|t: int| 0 <= t < i + 1 implies #[trigger] items2.contains_key(tv[t]) by {}
    assert forall|g: int, a: int| 0 <= g < ng.len() && 0 <= a < ng[g].len() implies items2[tv[#[trigger] ng[g][a] as int]] == g by {
        if g < n {
            assert(items.contains_key(tv[groups[g][a] as int]));
        }
    }
    assert forall|k: Seq<char>| #[trigger] items2.contains_key(k) implies exists|t: int| 0 <= t < i + 1 && tv[t] == k by {
        if k != key {
            let t = choose|t: int| 0 <= t < i && tv[t] == k;
        } else {
            assert(tv[i as int] == k);
        }
    }
    lemma_hamming_self(fp);
    assert(!clusters.contains_key(fp));
    assert forall|g: int| 0 <= g < ng.len() implies clusters2.contains_key(fps[#[trigger] ng[g][0] as int])
        && clusters2[fps[ng[g][0] as int]] == g by {
        if g < n {
            assert(clusters.contains_key(fps[groups[g][0] as int]));
        }
    }
    assert forall|k: u64| #[trigger] clusters2.contains_key(k) implies exists|g: int|
        0 <= g < ng.len() && k == fps[#[trigger] ng[g][0] as int] by {
        if k == fp {
            assert(fps[ng[n][0] as int] == k);
        } else {
            let g = choose|g: int| 0 <= g < groups.len() && k == fps[#[trigger] groups[g][0] as int];
            assert(ng[g][0] == groups[g][0]);
        }
    }
}

/// Groups the texts by near-duplicate: one `SimMap` keyed by the texts, asked for each text in
/// order, where a new cluster gets the next group number. Returns the indices of each group's
/// texts, groups in order of their first member.
pub fn group_texts(texts: &Vec<String>, hasher: SimHasher, max_diff: u8) -> (r: Vec<Vec<usize>>)
    ensures
        is_grouping(groups_view(r@), texts@.len()),
        groups_follow_clusters(
            groups_view(r@),
            text_views(texts@),
            text_fingerprints(hasher, texts@),
            max_diff,
        ),
{
    let ghost tv = text_views(texts@);
    let ghost fps = text_fingerprints(hasher, texts@);
    let ghost h0 = hasher;
    let mut map: SimMap<usize> = SimMap::new(hasher, max_diff);
    let mut groups: Vec<Vec<usize>> = Vec::new();
    let n = texts.len();
    let mut i: usize = 0;
    while i < n
        invariant
            n == texts@.len(),
            i <= n,
            tv == text_views(texts@),
            fps == text_fingerprints(h0, texts@),
            map.wf(),
            map.sim_hasher() == h0,
            map.max_distance() == max_diff,
            grouping_inv(groups_view(groups@), i as nat, tv, fps, max_diff, map.items(), map.clusters()),
            map.clusters().len() <= i,
        decreases n - i,
    {
        let ghost old_map = map;
        let ghost gv = groups_view(groups@);
        let next_group = groups.len();
        let make = || -> (v: usize)
            ensures
                v == next_group,
        { next_group };
        let g = map.maybe_insert_close_or(texts[i].clone(), make);
        proof {
            assert(tv[i as int] == texts@[i as int]@);
            assert(fps[i as int] == old_map.fingerprint_of(tv[i as int]));
            lemma_group_step(
                gv,
                i as nat,
                tv,
                fps,
                max_diff,
                old_map.items(),
                old_map.clusters(),
                map.items(),
                map.clusters(),
                g,
            );
        }
        if g < groups.len() {
            let ghost before = groups@;
            groups[g].push(i);
            assert(groups_view(groups@) =~= gv.update(g as int, gv[g as int].push(i as usize))) by {
                assert forall|x: int| 0 <= x < groups@.len() implies #[trigger] groups@[x]@ == gv.update(g as int, gv[g as int].push(i as usize))[x] by {
                    if x != g {
                        assert(groups@[x] == before[x]);
                    }
                }
            }
        } else {
            let mut fresh: Vec<usize> = Vec::new();
            fresh.push(i);
            groups.push(fresh);
            assert(groups_view(groups@) =~= gv.push(seq![i as usize]));
        }
        i = i + 1;
    }
    groups
}

/// Groups the texts by near-duplicate under the configuration, as `group_texts` does with a
/// hasher of that configuration. Fails when `window_size` is 0.
pub fn group(
    texts: &Vec<String>,
    max_diff: u8,
    method: HashMethod,
    feature_type: FeatureType,
    window_size: usize,
) -> (r: Result<Vec<Vec<usize>>, Error>)
    ensures
        window_size == 0 <==> r is Err,
        r matches Ok(groups) ==> {
            &&& is_grouping(groups_view(groups@), texts@.len())
            &&& groups_follow_clusters(
                groups_view(groups@),
                text_views(texts@),
                Seq::new(
                    texts@.len(),
                    |i: int| fingerprint(method, feature_type, window_size as nat, texts@[i]@),
                ),
                max_diff,
            )
        },
{
    match SimHasher::new(method, feature_type, window_size) {
        Ok(h) => {
            let ghost fps = text_fingerprints(h, texts@);
            let groups = group_texts(texts, h, max_diff);
            assert(fps =~= Seq::new(
                texts@.len(),
                |i: int| fingerprint(method, feature_type, window_size as nat, texts@[i]@),
            ));
            Ok(groups)
        },
        Err(e) => Err(e),
    }
}

/// Three different texts, the second within `max_dist` of the first and the third farther than
/// `max_dist` from the first, fall into two groups: the first two texts, then the third.
pub proof fn lemma_three_texts(
    groups: Seq<Seq<usize>>,
    texts: Seq<Seq<char>>,
    fps: Seq<u64>,
    max_dist: u8,
)
    requires
        texts.len() == 3,
        fps.len() == 3,
        texts[0] != texts[1],
        texts[0] != texts[2],
        texts[1] != texts[2],
        hamming(fps[0], fps[1]) <= max_dist,
        hamming(fps[0], fps[2]) > max_dist,
        is_grouping(groups, 3),
        groups_follow_clusters(groups, texts, fps, max_dist),
    ensures
        groups == seq![seq![0usize, 1usize], seq![2usize]],
{
    // Each group starts with its smallest member.
    assert forall|g: int, a: int| 0 <= g < groups.len() && 0 < a < groups[g].len() implies groups[g][0] < #[trigger] groups[g][a] by {
        assert(groups[g][0] < groups[g][a]);
    }
    assert(in_some_group(groups, 0));
    let (g0, a0) = choose|g: int, a: int| 0 <= g < groups.len() && 0 <= a < groups[g].len() && #[trigger] groups[g][a] == 0;
    assert(a0 == 0);
    if g0 > 0 {
        assert(groups[0][0] < groups[g0][0]);
    }
    assert(g0 == 0);
    assert(in_some_group(groups, 1));
    let (g1, a1) = choose|g: int, a: int| 0 <= g < groups.len() && 0 <= a < groups[g].len() && #[trigger] groups[g][a] == 1;
    if a1 == 0 {
        if g1 == 0 {
            assert(false);
        } else {
            assert(hamming(fps[groups[0][0] as int], fps[groups[g1][0] as int]) > max_dist);
            assert(false);
        }
    }
    assert(groups[g1][0] == 0);
    assert(g1 == 0);
    assert(in_some_group(groups, 2));
    let (g2, a2) = choose|g: int, a: int| 0 <= g < groups.len() && 0 <= a < groups[g].len() && #[trigger] groups[g][a] == 2;
    if g2 == 0 {
        assert(a2 > 0);
        lemma_hamming_symmetric(fps[0], fps[2]);
        if exists|b: int| 0 <= b < a2 && texts[groups[0][b] as int] == texts[#[trigger] groups[0][a2] as int] {
            let b = choose|b: int| 0 <= b < a2 && texts[groups[0][b] as int] == texts[#[trigger] groups[0][a2] as int];
            assert(groups[0][b] < 2);
            assert(false);
        }
        assert(false);
    }
    // Group 0 holds exactly 0 and 1.
    assert forall|a: int| 0 <= a < groups[0].len() implies #[trigger] groups[0][a] < 2 by {
        if groups[0][a] == 2 {
            assert(g2 == 0);
        }
    }
    assert(groups[0].len() == 2) by {
        if groups[0].len() > 2 {
            assert(groups[0][0] < groups[0][1]);
            assert(groups[0][1] < groups[0][2]);
        }
    }
    assert(groups[0][0] == 0 && groups[0][1] == 1);
    assert(groups[0] =~= seq![0usize, 1usize]);
    // Every other group holds exactly 2.
    assert forall|g: int| 1 <= g < groups.len() implies #[trigger] groups[g] == seq![2usize] by {
        assert forall|a: int| 0 <= a < groups[g].len() implies #[trigger] groups[g][a] == 2 by {
            if groups[g][a] == 0 {
                assert(groups[0][0] == groups[g][a]);
            } else if groups[g][a] == 1 {
                assert(groups[0][1] == groups[g][a]);
            }
        }
        assert(groups[g].len() > 0);
        if groups[g].len() > 1 {
            assert(groups[g][0] < groups[g][1]);
        }
        assert(groups[g] =~= seq![2usize]);
    }
    assert(g2 >= 1);
    if groups.len() > 2 {
        assert(groups[1][0] == 2 && groups[2][0] == 2);
        assert(groups[1][0] == groups[2][0]);
    }
    assert(groups.len() == 2);
    assert(groups =~= seq![seq![0usize, 1usize], seq![2usize]]);
}

} // verus!
