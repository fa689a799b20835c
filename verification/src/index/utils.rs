//! Search helpers: bounded top-k maintenance and nearest-centroid selection.
use crate::index::cluster::Cluster;
use crate::metric::{dist2, MetricType};
use vstd::prelude::*;

verus! {

/// One candidate held while collecting the top-k closest ids.
#[derive(Debug, Clone, Copy)]
pub struct TopkIntermediate {
    /// Id of the candidate vector.
    pub id: usize,
    /// Its exact squared distance to the query.
    pub distance: u128,
}

/// Whether some entry of `buf` carries `id`.
pub open spec fn buf_has_id(buf: Seq<TopkIntermediate>, id: usize) -> bool {
    exists|a: int| 0 <= a < buf.len() && buf[a].id == id
}

/// `buf` holds the `k` closest of the candidate ids `seen` (all of them when
/// fewer): entry distances are exact, entries are distinct candidates, the
/// buffer is as full as `seen` allows, and no candidate outside the buffer is
/// closer than any entry.
pub open spec fn is_topk_buf(
    buf: Seq<TopkIntermediate>,
    seen: Seq<usize>,
    k: int,
    q: Seq<u32>,
    vecs: Seq<Seq<u32>>,
) -> bool {
    &&& buf.len() == vstd::math::min(k, seen.len() as int)
    &&& forall|a: int, b: int|
        0 <= a < b < buf.len() ==> (#[trigger] buf[a]).id != (#[trigger] buf[b]).id
    &&& forall|a: int| 0 <= a < buf.len() ==> seen.contains((#[trigger] buf[a]).id)
    &&& forall|a: int|
        0 <= a < buf.len() ==> (#[trigger] buf[a]).distance == dist2(q, vecs[buf[a].id as int])
    &&& forall|a: int, s: int|
        0 <= a < buf.len() && 0 <= s < seen.len() && !buf_has_id(buf, seen[s]) ==> (
        #[trigger] buf[a]).distance <= dist2(q, vecs[#[trigger] seen[s] as int])
}

/// How one candidate reshapes the buffer: pushed while under capacity;
/// otherwise it replaces a farthest entry when strictly closer, and is
/// discarded when no entry is farther.
pub open spec fn topk_insert_post(
    buf0: Seq<TopkIntermediate>,
    buf1: Seq<TopkIntermediate>,
    k: int,
    id: usize,
    distance: u128,
) -> bool {
    if buf0.len() < k {
        buf1 == buf0.push(TopkIntermediate { id, distance })
    } else if exists|m: int| 0 <= m < buf0.len() && (#[trigger] buf0[m]).distance > distance {
        exists|m: int|
            {
                &&& 0 <= m < buf0.len()
                &&& buf1 == buf0.update(m, TopkIntermediate { id, distance })
                &&& (#[trigger] buf0[m]).distance > distance
                &&& forall|a: int|
                    0 <= a < buf0.len() ==> (#[trigger] buf0[a]).distance <= buf0[m].distance
            }
    } else {
        buf1 == buf0
    }
}

/// Offers one candidate to a bounded top-k buffer of capacity `k`: pushed
/// while under capacity, otherwise it replaces the first farthest entry when
/// strictly closer than that entry, and is discarded when not.
pub fn topk_insert(buf: &mut Vec<TopkIntermediate>, k: usize, id: usize, distance: u128)
    requires
        old(buf)@.len() <= k,
    ensures
        topk_insert_post(old(buf)@, final(buf)@, k as int, id, distance),
        final(buf)@.len() == vstd::math::min(k as int, old(buf)@.len() as int + 1),
{
    let n: usize = buf.len();
    if n < k {
        buf.push(TopkIntermediate { id, distance });
        return ;
    }
    // At capacity: find the first entry with the largest distance.
    let mut worst: usize = 0;
    let mut i: usize = 1;
    if n == 0 {
        return ;
    }
    while i < n
        invariant
            1 <= i <= n,
            worst < i,
            n == buf@.len(),
            forall|a: int| 0 <= a < i ==> (#[trigger] buf@[a]).distance <= buf@[worst as int].distance,
        decreases n - i,
    {
        if buf[i].distance > buf[worst].distance {
            worst = i;
        }
        i = i + 1;
    }
    if buf[worst].distance > distance {
        buf.set(worst, TopkIntermediate { id, distance });
        proof {
            let m = worst as int;
            assert(0 <= m < old(buf)@.len() && old(buf)@[m].distance > distance);
        }
    } else {
        proof {
            assert(forall|m: int|
                0 <= m < old(buf)@.len() ==> (#[trigger] old(buf)@[m]).distance
                    <= old(buf)@[worst as int].distance);
        }
    }
}

/// Feeding a fresh candidate with its exact distance into a top-k buffer
/// keeps the buffer the top-k of the candidates seen so far.
pub proof fn lemma_topk_insert_maintains(
    buf0: Seq<TopkIntermediate>,
    buf1: Seq<TopkIntermediate>,
    seen: Seq<usize>,
    k: int,
    q: Seq<u32>,
    vecs: Seq<Seq<u32>>,
    id: usize,
    distance: u128,
)
    requires
        is_topk_buf(buf0, seen, k, q, vecs),
        topk_insert_post(buf0, buf1, k, id, distance),
        !seen.contains(id),
        distance == dist2(q, vecs[id as int]),
    ensures
        is_topk_buf(buf1, seen.push(id), k, q, vecs),
{
    let seen1 = seen.push(id);
    assert(seen1[seen.len() as int] == id);
    assert(forall|s: int| 0 <= s < seen.len() ==> seen1[s] == #[trigger] seen[s]);
    assert(forall|x: usize| seen.contains(x) ==> seen1.contains(x)) by {
        assert forall|x: usize| seen.contains(x) implies seen1.contains(x) by {
            let s = choose|s: int| 0 <= s < seen.len() && seen[s] == x;
            assert(seen1[s] == x);
        }
    }
    if buf0.len() < k {
        // Under capacity the buffer holds every candidate seen, so nothing
        // sits outside it and the new candidate is simply appended.
        assert(buf0.len() == seen.len());
        assert(buf1 == buf0.push(TopkIntermediate { id, distance }));
        assert(buf1[buf0.len() as int].id == id);
        assert forall|a: int, s: int|
            0 <= a < buf1.len() && 0 <= s < seen1.len() && !buf_has_id(buf1, seen1[s]) implies (
        buf1[a]).distance <= dist2(q, vecs[seen1[s] as int]) by {
            if s < seen.len() {
                assert(seen.contains(seen[s]));
                lemma_topk_all_seen_in_buf(buf0, seen, k, q, vecs, s);
                let a0 = choose|a0: int| 0 <= a0 < buf0.len() && buf0[a0].id == seen[s];
                assert(buf1[a0].id == seen1[s]);
                assert(buf_has_id(buf1, seen1[s]));
            } else {
                assert(buf1[buf0.len() as int].id == seen1[s]);
                assert(buf_has_id(buf1, seen1[s]));
            }
        }
    } else if exists|m: int| 0 <= m < buf0.len() && (#[trigger] buf0[m]).distance > distance {
        let m = choose|m: int|
            {
                &&& 0 <= m < buf0.len()
                &&& buf1 == buf0.update(m, TopkIntermediate { id, distance })
                &&& (#[trigger] buf0[m]).distance > distance
                &&& forall|a: int|
                    0 <= a < buf0.len() ==> (#[trigger] buf0[a]).distance <= buf0[m].distance
            };
        let evicted = buf0[m].id;
        assert(seen.contains(evicted));
        assert(buf1[m].id == id);
        // Entries other than the replaced slot are unchanged.
        assert(forall|a: int| 0 <= a < buf1.len() && a != m ==> buf1[a] == buf0[a]);
        // Distinct entry ids: the new id was never a candidate before.
        assert forall|a: int, b: int|
            0 <= a < b < buf1.len() implies (#[trigger] buf1[a]).id != (#[trigger] buf1[b]).id by {
            if a != m && b != m {
                assert(buf1[a] == buf0[a] && buf1[b] == buf0[b]);
            } else if a == m {
                assert(seen.contains(buf0[b].id));
            } else {
                assert(seen.contains(buf0[a].id));
            }
        }
        // Minimality against everything now outside the buffer.
        assert forall|a: int, s: int|
            0 <= a < buf1.len() && 0 <= s < seen1.len() && !buf_has_id(buf1, seen1[s]) implies (
        buf1[a]).distance <= dist2(q, vecs[seen1[s] as int]) by {
            if s < seen.len() {
                if buf_has_id(buf0, seen[s]) {
                    let a0 = choose|a0: int| 0 <= a0 < buf0.len() && buf0[a0].id == seen[s];
                    if a0 == m {
                        // The candidate outside the new buffer is the evicted
                        // entry, which was a farthest one.
                        assert(buf0[a0].distance == dist2(q, vecs[seen[s] as int]));
                        if a == m {
                            assert(buf1[a].distance == distance);
                        } else {
                            assert(buf1[a].distance == buf0[a].distance <= buf0[m].distance);
                        }
                    } else {
                        assert(buf1[a0].id == seen[s]);
                        assert(buf_has_id(buf1, seen1[s]));
                    }
                } else {
                    // Outside the old buffer: every old entry was at most its
                    // distance, and the new entry is closer than the evicted.
                    if a == m {
                        assert(buf0[m].distance <= dist2(q, vecs[seen[s] as int]));
                    } else {
                        assert(buf1[a] == buf0[a]);
                    }
                }
            } else {
                assert(seen1[s] == id);
                assert(buf1[m].id == id);
                assert(buf_has_id(buf1, seen1[s]));
            }
        }
    } else {
        // Discarded: no entry is farther, so the new candidate can be left
        // outside the buffer.
        assert(buf1 == buf0);
        assert(forall|a: int|
            0 <= a < buf0.len() ==> !((#[trigger] buf0[a]).distance > distance));
        assert forall|a: int, s: int|
            0 <= a < buf1.len() && 0 <= s < seen1.len() && !buf_has_id(buf1, seen1[s]) implies (
        buf1[a]).distance <= dist2(q, vecs[seen1[s] as int]) by {
            if s < seen.len() {
                assert(seen1[s] == seen[s]);
            } else {
                assert(seen1[s] == id);
            }
        }
        assert(buf1.len() == vstd::math::min(k, seen1.len() as int));
    }
}

/// While a top-k buffer is as large as the candidate list, it holds every
/// candidate: its ids are distinct members of the candidate list, so by
/// counting none can be missing.
proof fn lemma_topk_all_seen_in_buf(
    buf: Seq<TopkIntermediate>,
    seen: Seq<usize>,
    k: int,
    q: Seq<u32>,
    vecs: Seq<Seq<u32>>,
    s: int,
)
    requires
        is_topk_buf(buf, seen, k, q, vecs),
        buf.len() == seen.len(),
        0 <= s < seen.len(),
    ensures
        buf_has_id(buf, seen[s]),
{
    if !buf_has_id(buf, seen[s]) {
        let buf_ids = Set::new(|x: usize| buf_has_id(buf, x));
        let seen_set = Set::new(|x: usize| seen.contains(x));
        lemma_buf_prefix_ids_card(buf, buf.len() as int);
        assert(buf_ids =~= Set::new(
            |x: usize| exists|a: int| 0 <= a < buf.len() && buf[a].id == x,
        ));
        lemma_seen_set_card(seen, seen.len() as int);
        assert(seen_set =~= Set::new(
            |x: usize| exists|t: int| 0 <= t < seen.len() && seen[t] == x,
        ));
        assert forall|x: usize| buf_ids.contains(x) implies seen_set.contains(x) by {
            let a = choose|a: int| 0 <= a < buf.len() && buf[a].id == x;
            assert(seen.contains(buf[a].id));
        }
        assert(seen_set.contains(seen[s]));
        buf_ids.lemma_subset_not_in_lt(seen_set, seen[s]);
        assert(false);
    }
}

/// The ids of the first `upto` distinct entries form a set of size `upto`.
proof fn lemma_buf_prefix_ids_card(buf: Seq<TopkIntermediate>, upto: int)
    requires
        0 <= upto <= buf.len(),
        forall|a: int, b: int|
            0 <= a < b < buf.len() ==> (#[trigger] buf[a]).id != (#[trigger] buf[b]).id,
    ensures
        Set::new(|x: usize| exists|a: int| 0 <= a < upto && buf[a].id == x).finite(),
        Set::new(|x: usize| exists|a: int| 0 <= a < upto && buf[a].id == x).len() == upto,
    decreases upto,
{
    let ids = Set::new(|x: usize| exists|a: int| 0 <= a < upto && buf[a].id == x);
    if upto == 0 {
        assert(ids =~= Set::<usize>::empty());
    } else {
        lemma_buf_prefix_ids_card(buf, upto - 1);
        let prev = Set::new(|x: usize| exists|a: int| 0 <= a < upto - 1 && buf[a].id == x);
        assert(!prev.contains(buf[upto - 1].id));
        assert(ids =~= prev.insert(buf[upto - 1].id));
    }
}

/// Brute-force top-k: ranks every stored vector against the query and keeps
/// the `k` closest (all of them when fewer are stored), with exact squared
/// distances. No candidate left out is closer than any entry returned.
pub fn get_topk<A: crate::VectorAccessor>(
    k: usize,
    query: &[u32],
    vectors: &A,
    metric: MetricType,
) -> (r: Vec<TopkIntermediate>)
    requires
        metric is L2,
        query@.len() == vectors.spec_dim(),
    ensures
        is_topk_buf(
            r@,
            Seq::new(vectors.vecs().len(), |i: int| i as usize),
            k as int,
            query@,
            vectors.vecs(),
        ),
{
    let ghost vecs = vectors.vecs();
    let ghost q = query@;
    let ghost all = Seq::new(vectors.vecs().len(), |i: int| i as usize);
    proof {
        vectors.lemma_dims();
    }
    let n: usize = vectors.len();
    let mut buf: Vec<TopkIntermediate> = Vec::new();
    let mut i: usize = 0;
    while i < n
        invariant
            i <= n,
            n == vecs.len(),
            vecs == vectors.vecs(),
            q == query@,
            all == Seq::new(vecs.len(), |t: int| t as usize),
            metric is L2,
            q.len() == vectors.spec_dim(),
            forall|t: int| 0 <= t < vecs.len() ==> (#[trigger] vecs[t]).len()
                == vectors.spec_dim(),
            is_topk_buf(buf@, all.take(i as int), k as int, q, vecs),
        decreases n - i,
    {
        let row: &[u32] = vectors.get(i);
        let d: u128 = metric.distance(query, row);
        proof {
            // The id `i` has not been offered yet: everything seen so far is
            // smaller.
            assert(forall|t: int| 0 <= t < i ==> (#[trigger] all.take(i as int)[t]) == t as usize);
            assert(!all.take(i as int).contains(i)) by {
                if all.take(i as int).contains(i) {
                    let t = choose|t: int|
                        0 <= t < i && all.take(i as int)[t] == i as usize;
                }
            }
            assert(buf@.len() <= k);
        }
        let ghost buf0 = buf@;
        topk_insert(&mut buf, k, i, d);
        proof {
            lemma_topk_insert_maintains(buf0, buf@, all.take(i as int), k as int, q, vecs, i, d);
            assert(all.take(i + 1) =~= all.take(i as int).push(i));
        }
        i = i + 1;
    }
    proof {
        assert(all.take(n as int) =~= all);
    }
    buf
}

/// Squared distance from the query to the centroid of cluster `i`.
pub open spec fn cdist(cs: Seq<Cluster>, q: Seq<u32>, i: int) -> int {
    dist2(cs[i].centroid@, q)
}

/// Strict priority of cluster `a` over cluster `b` for probing: strictly
/// closer centroid, or the same distance and the earlier original position.
pub open spec fn lex_before(cs: Seq<Cluster>, q: Seq<u32>, a: int, b: int) -> bool {
    cdist(cs, q, a) < cdist(cs, q, b) || (cdist(cs, q, a) == cdist(cs, q, b) && a < b)
}

/// `order` lists every cluster index exactly once, nearest centroid first,
/// ties broken by the original cluster position.
pub open spec fn is_cluster_order(cs: Seq<Cluster>, q: Seq<u32>, order: Seq<usize>) -> bool {
    &&& order.len() == cs.len()
    &&& forall|t: int| 0 <= t < order.len() ==> (#[trigger] order[t]) < cs.len()
    &&& forall|v: usize| v < cs.len() ==> order.contains(v)
    &&& forall|t1: int, t2: int|
        0 <= t1 < t2 < order.len() ==> lex_before(
            cs,
            q,
            #[trigger] order[t1] as int,
            #[trigger] order[t2] as int,
        )
}

/// The cluster whose centroid is nearest to `vector`, first one on ties,
/// with its distance.
pub fn get_nearest_vector(vector: &[u32], clusters: &Vec<Cluster>, metric: MetricType) -> (r: (
    usize,
    u128,
))
    requires
        clusters@.len() >= 1,
        metric is L2,
        forall|c: int|
            0 <= c < clusters@.len() ==> (#[trigger] clusters@[c]).centroid@.len()
                == vector@.len(),
    ensures
        r.0 < clusters@.len(),
        r.1 == cdist(clusters@, vector@, r.0 as int),
        forall|c: int| 0 <= c < clusters@.len() ==> cdist(clusters@, vector@, c) >= r.1,
        forall|c: int| 0 <= c < r.0 ==> cdist(clusters@, vector@, c) > r.1,
{
    let mut target: usize = 0;
    let mut min_distance: u128 = metric.distance(clusters[0].centroid.as_slice(), vector);
    let mut i: usize = 1;
    while i < clusters.len()
        invariant
            1 <= i <= clusters@.len(),
            target < i,
            metric is L2,
            forall|c: int|
                0 <= c < clusters@.len() ==> (#[trigger] clusters@[c]).centroid@.len()
                    == vector@.len(),
            min_distance == cdist(clusters@, vector@, target as int),
            forall|c: int| 0 <= c < i ==> cdist(clusters@, vector@, c) >= min_distance,
            forall|c: int| 0 <= c < target ==> cdist(clusters@, vector@, c) > min_distance,
        decreases clusters@.len() - i,
    {
        let distance = metric.distance(clusters[i].centroid.as_slice(), vector);
        if distance < min_distance {
            target = i;
            min_distance = distance;
        }
        i = i + 1;
    }
    (target, min_distance)
}

/// Ranks all cluster indices by centroid distance to the query, nearest
/// first, ties broken by original position; a search probes a prefix of
/// this order.
pub fn cluster_order(clusters: &Vec<Cluster>, query: &[u32], metric: MetricType) -> (order: Vec<
    usize,
>)
    requires
        metric is L2,
        forall|c: int|
            0 <= c < clusters@.len() ==> (#[trigger] clusters@[c]).centroid@.len() == query@.len(),
    ensures
        is_cluster_order(clusters@, query@, order@),
{
    let n: usize = clusters.len();
    let mut dists: Vec<u128> = Vec::new();
    let mut c: usize = 0;
    while c < n
        invariant
            c <= n,
            n == clusters@.len(),
            metric is L2,
            forall|t: int|
                0 <= t < clusters@.len() ==> (#[trigger] clusters@[t]).centroid@.len()
                    == query@.len(),
            dists@.len() == c,
            forall|t: int| 0 <= t < c ==> dists@[t] == cdist(clusters@, query@, t),
        decreases n - c,
    {
        dists.push(metric.distance(clusters[c].centroid.as_slice(), query));
        c = c + 1;
    }

    let mut order: Vec<usize> = Vec::new();
    let mut v: usize = 0;
    while v < n
        invariant
            v <= n,
            order@.len() == v,
            forall|t: int| 0 <= t < v ==> (#[trigger] order@[t]) == t,
        decreases n - v,
    {
        order.push(v);
        v = v + 1;
    }
    proof {
        assert forall|x: usize| x < n implies order@.contains(x) by {
            assert(order@[x as int] == x);
        }
    }

    let ghost cs = clusters@;
    let ghost q = query@;
    let mut i: usize = 0;
    while i < n
        invariant
            i <= n,
            n == cs.len(),
            cs == clusters@,
            q == query@,
            dists@.len() == n,
            forall|t: int| 0 <= t < n ==> dists@[t] == cdist(cs, q, t),
            order@.len() == n,
            forall|t: int| 0 <= t < n ==> (#[trigger] order@[t]) < n,
            forall|t1: int, t2: int|
                0 <= t1 < t2 < n ==> (#[trigger] order@[t1]) != (#[trigger] order@[t2]),
            forall|x: usize| x < n ==> order@.contains(x),
            forall|t1: int, t2: int|
                0 <= t1 < i && t1 < t2 < n ==> lex_before(
                    cs,
                    q,
                    #[trigger] order@[t1] as int,
                    #[trigger] order@[t2] as int,
                ),
        decreases n - i,
    {
        let mut m: usize = i;
        let mut j: usize = i + 1;
        while j < n
            invariant
                i <= m < j <= n,
                n == cs.len(),
                q == query@,
                dists@.len() == n,
                forall|t: int| 0 <= t < n ==> dists@[t] == cdist(cs, q, t),
                order@.len() == n,
                forall|t: int| 0 <= t < n ==> (#[trigger] order@[t]) < n,
                forall|t1: int, t2: int|
                    0 <= t1 < t2 < n ==> (#[trigger] order@[t1]) != (#[trigger] order@[t2]),
                forall|x: usize| x < n ==> order@.contains(x),
                forall|t1: int, t2: int|
                    0 <= t1 < i && t1 < t2 < n ==> lex_before(
                        cs,
                        q,
                        #[trigger] order@[t1] as int,
                        #[trigger] order@[t2] as int,
                    ),
                forall|t: int|
                    i <= t < j ==> !lex_before(
                        cs,
                        q,
                        #[trigger] order@[t] as int,
                        order@[m as int] as int,
                    ),
            decreases n - j,
        {
            let oj: usize = order[j];
            let om: usize = order[m];
            let better = dists[oj] < dists[om] || (dists[oj] == dists[om] && oj < om);
            if better {
                m = j;
            }
            j = j + 1;
        }

        let ghost before = order@;
        let tmp: usize = order[i];
        let om: usize = order[m];
        order.set(i, om);
        order.set(m, tmp);
        proof {
            assert(order@ == before.update(i as int, before[m as int]).update(
                m as int,
                before[i as int],
            ));
            // The swap permutes two positions, so coverage of every value is
            // kept.
            assert forall|x: usize| x < n implies order@.contains(x) by {
                assert(before.contains(x));
                let t = choose|t: int| 0 <= t < before.len() && before[t] == x;
                if t == i as int {
                    assert(order@[m as int] == x);
                } else if t == m as int {
                    assert(order@[i as int] == x);
                } else {
                    assert(order@[t] == x);
                }
            }
            // The element now at position `i` has strict priority over the
            // whole remaining suffix, because indices are distinct and ties
            // break by position.
            assert forall|t1: int, t2: int|
                0 <= t1 < i + 1 && t1 < t2 < n implies lex_before(
                cs,
                q,
                #[trigger] order@[t1] as int,
                #[trigger] order@[t2] as int,
            ) by {
                if t1 < i as int {
                } else {
                    assert(order@[t1] == before[m as int]);
                    let w = if t2 == m as int {
                        i as int
                    } else {
                        t2
                    };
                    assert(order@[t2] == before[w]);
                    assert(i as int <= w < n);
                    assert(!lex_before(cs, q, before[w] as int, before[m as int] as int));
                    assert(before[w] != before[m as int]);
                }
            }
        }
        i = i + 1;
    }
    order
}

/// A sequence of length `n` covers a set of at most `n` values.
proof fn lemma_seen_set_card(seen: Seq<usize>, upto: int)
    requires
        0 <= upto <= seen.len(),
    ensures
        Set::new(|x: usize| exists|s: int| 0 <= s < upto && seen[s] == x).finite(),
        Set::new(|x: usize| exists|s: int| 0 <= s < upto && seen[s] == x).len() <= upto,
    decreases upto,
{
    let ids = Set::new(|x: usize| exists|s: int| 0 <= s < upto && seen[s] == x);
    if upto == 0 {
        assert(ids =~= Set::<usize>::empty());
    } else {
        lemma_seen_set_card(seen, upto - 1);
        let prev = Set::new(|x: usize| exists|s: int| 0 <= s < upto - 1 && seen[s] == x);
        if prev.contains(seen[upto - 1]) {
            assert(ids =~= prev);
        } else {
            assert(ids =~= prev.insert(seen[upto - 1]));
        }
    }
}

} // verus!
