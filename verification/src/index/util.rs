//! Training: the iterative clustering that builds an inverted-file index.
//!
//! One pass assigns every vector of a bounded training subset to its nearest
//! centroid, revives empty clusters by splitting the currently largest one,
//! and recomputes every centroid as the mean of its members. Passes repeat
//! until the within-cluster sum of squares stops improving or the iteration
//! budget runs out; vectors outside the training subset are then assigned
//! once, without moving centroids.
use crate::index::cluster::{centroid_of, elems_in_range, Cluster};
use crate::index::ivf::{covered, covers, distinct_ids};
use crate::index::utils::get_nearest_vector;
use crate::metric::MetricType;
use crate::{TrainOption, VectorAccessor};
use vstd::prelude::*;

verus! {

/// Cap on the training subset: at most this many vectors per desired
/// cluster take part in the iterative passes.
pub const MAX_CLUSTER_SIZE: usize = 256;

/// How many vectors the iterative passes train on: the whole store, or the
/// capped subset when the store is larger.
pub open spec fn train_size_of(nlist: int, n: int) -> int {
    vstd::math::min(nlist * MAX_CLUSTER_SIZE, n)
}

/// Total member count over all clusters.
pub open spec fn total_len(cs: Seq<Cluster>) -> int
    decreases cs.len(),
{
    if cs.len() == 0 {
        0
    } else {
        total_len(cs.drop_last()) + cs.last().elements@.len()
    }
}

/// Every member id of every cluster is below `bound`.
pub open spec fn clusters_ids_below(cs: Seq<Cluster>, bound: nat) -> bool {
    forall|c: int| 0 <= c < cs.len() ==> elems_in_range((#[trigger] cs[c]).elements@, bound)
}

/// The members a training pass gave the cluster form a prefix (ids below
/// `ts`, the training-subset size), later appended ids follow, and the
/// centroid is the mean of that trained prefix.
pub open spec fn cluster_centered(c: Cluster, vecs: Seq<Seq<u32>>, dim: nat, ts: int) -> bool {
    exists|cut: int|
        {
            &&& 0 < cut <= c.elements@.len()
            &&& (forall|e: int| 0 <= e < cut ==> (#[trigger] c.elements@[e]) < ts)
            &&& (forall|e: int| cut <= e < c.elements@.len() ==> (#[trigger] c.elements@[e]) >= ts)
            &&& c.centroid@ == centroid_of(vecs, c.elements@.take(cut), dim)
        }
}

/// What one completed training pass leaves behind: exactly `nlist` clusters,
/// none empty, partitioning the ids below `ts`, each centroid the mean of
/// its members.
pub open spec fn trained_set(
    cs: Seq<Cluster>,
    vecs: Seq<Seq<u32>>,
    dim: nat,
    ts: int,
    nlist: int,
) -> bool {
    &&& cs.len() == nlist
    &&& forall|c: int| 0 <= c < cs.len() ==> (#[trigger] cs[c]).elements@.len() >= 1
    &&& forall|c: int| 0 <= c < cs.len() ==> (#[trigger] cs[c]).centroid@.len() == dim
    &&& clusters_ids_below(cs, ts as nat)
    &&& distinct_ids(cs)
    &&& covers(cs, ts)
    &&& forall|c: int|
        0 <= c < cs.len() ==> (#[trigger] cs[c]).centroid@ == centroid_of(
            vecs,
            cs[c].elements@,
            dim,
        )
}

/// Replacing one cluster changes the total member count by the difference.
proof fn lemma_total_len_update(cs: Seq<Cluster>, c: int, x: Cluster)
    requires
        0 <= c < cs.len(),
    ensures
        total_len(cs.update(c, x)) == total_len(cs) - cs[c].elements@.len()
            + x.elements@.len(),
    decreases cs.len(),
{
    if c == cs.len() - 1 {
        assert(cs.update(c, x).drop_last() =~= cs.drop_last());
    } else {
        assert(cs.update(c, x).drop_last() =~= cs.drop_last().update(c, x));
        lemma_total_len_update(cs.drop_last(), c, x);
    }
}

/// With at most one member each, the clusters hold at most one member per
/// cluster in total; an empty one lowers that by one more.
proof fn lemma_total_len_small(cs: Seq<Cluster>, slot: int)
    requires
        forall|c: int| 0 <= c < cs.len() ==> (#[trigger] cs[c]).elements@.len() <= 1,
        0 <= slot < cs.len(),
        cs[slot].elements@.len() == 0,
    ensures
        total_len(cs) <= cs.len() - 1,
    decreases cs.len(),
{
    if slot == cs.len() - 1 {
        lemma_total_len_le(cs.drop_last());
    } else {
        lemma_total_len_small(cs.drop_last(), slot);
    }
}

/// With at most one member each, the total member count is at most the
/// cluster count.
proof fn lemma_total_len_le(cs: Seq<Cluster>)
    requires
        forall|c: int| 0 <= c < cs.len() ==> (#[trigger] cs[c]).elements@.len() <= 1,
    ensures
        total_len(cs) <= cs.len(),
    decreases cs.len(),
{
    if cs.len() > 0 {
        lemma_total_len_le(cs.drop_last());
    }
}

/// Appending a fresh id (larger than every id already assigned) to one
/// cluster keeps the clusters disjoint and extends their coverage to it.
proof fn lemma_push_fresh_id(cs0: Seq<Cluster>, cs1: Seq<Cluster>, tgt: int, id: usize)
    requires
        0 <= tgt < cs0.len(),
        cs1.len() == cs0.len(),
        cs1[tgt].elements@ == cs0[tgt].elements@.push(id),
        forall|c: int| 0 <= c < cs0.len() && c != tgt ==> (#[trigger] cs1[c]) == cs0[c],
        distinct_ids(cs0),
        clusters_ids_below(cs0, id as nat),
        covers(cs0, id as int),
    ensures
        distinct_ids(cs1),
        clusters_ids_below(cs1, (id + 1) as nat),
        covers(cs1, id + 1),
        total_len(cs1) == total_len(cs0) + 1,
{
    let l = cs0[tgt].elements@.len() as int;
    assert forall|c1: int, e1: int, c2: int, e2: int|
        0 <= c1 < cs1.len() && 0 <= e1 < cs1[c1].elements@.len() && 0 <= c2 < cs1.len() && 0 <= e2
            < cs1[c2].elements@.len() && (c1 != c2 || e1 != e2) implies #[trigger] cs1[c1].elements@[e1]
        != #[trigger] cs1[c2].elements@[e2] by {
        if c1 == tgt && e1 == l {
            assert(cs1[c2].elements@[e2] < id);
        } else if c2 == tgt && e2 == l {
            assert(cs1[c1].elements@[e1] < id);
        } else {
            assert(cs1[c1].elements@[e1] == cs0[c1].elements@[e1]);
            assert(cs1[c2].elements@[e2] == cs0[c2].elements@[e2]);
        }
    }
    assert forall|x: usize| x < id + 1 implies #[trigger] covered(cs1, x) by {
        if x < id {
            assert(covered(cs0, x));
            let c = choose|c: int| 0 <= c < cs0.len() && #[trigger] cs0[c].elements@.contains(x);
            let e = choose|e: int| 0 <= e < cs0[c].elements@.len() && cs0[c].elements@[e] == x;
            assert(cs1[c].elements@[e] == x);
            assert(cs1[c].elements@.contains(x));
        } else {
            assert(cs1[tgt].elements@[l] == id);
            assert(cs1[tgt].elements@.contains(x));
        }
    }
    lemma_total_len_update(cs0, tgt, cs1[tgt]);
    assert(cs1 =~= cs0.update(tgt, cs1[tgt]));
}

/// Splitting the members of one cluster between itself and a (previously
/// empty) slot moves ids around but keeps them disjoint and keeps every id
/// covered.
proof fn lemma_split_redistributes(
    cs0: Seq<Cluster>,
    cs1: Seq<Cluster>,
    m: int,
    slot: int,
    cut: int,
    n0: int,
    bound: nat,
)
    requires
        0 <= m < cs0.len(),
        0 <= slot < cs0.len(),
        m != slot,
        cs0[slot].elements@.len() == 0,
        0 <= cut <= cs0[m].elements@.len(),
        cs1.len() == cs0.len(),
        cs1[m].elements@ == cs0[m].elements@.subrange(0, cut),
        cs1[slot].elements@ == cs0[m].elements@.subrange(cut, cs0[m].elements@.len() as int),
        forall|c: int| 0 <= c < cs0.len() && c != m && c != slot ==> (#[trigger] cs1[c]) == cs0[c],
        distinct_ids(cs0),
        clusters_ids_below(cs0, bound),
        covers(cs0, n0),
    ensures
        distinct_ids(cs1),
        clusters_ids_below(cs1, bound),
        covers(cs1, n0),
        total_len(cs1) == total_len(cs0),
{
    let le = cs0[m].elements@.len() as int;
    // Map each position of the new layout back to its position in the old.
    assert forall|c1: int, e1: int, c2: int, e2: int|
        0 <= c1 < cs1.len() && 0 <= e1 < cs1[c1].elements@.len() && 0 <= c2 < cs1.len() && 0 <= e2
            < cs1[c2].elements@.len() && (c1 != c2 || e1 != e2) implies #[trigger] cs1[c1].elements@[e1]
        != #[trigger] cs1[c2].elements@[e2] by {
        let b1c = if c1 == slot { m } else { c1 };
        let b1e = if c1 == slot { e1 + cut } else { e1 };
        let b2c = if c2 == slot { m } else { c2 };
        let b2e = if c2 == slot { e2 + cut } else { e2 };
        assert(cs1[c1].elements@[e1] == cs0[b1c].elements@[b1e]);
        assert(cs1[c2].elements@[e2] == cs0[b2c].elements@[b2e]);
        assert(b1c != b2c || b1e != b2e);
    }
    assert forall|c: int| 0 <= c < cs1.len() implies elems_in_range(
        (#[trigger] cs1[c]).elements@,
        bound,
    ) by {
        assert forall|e: int| 0 <= e < cs1[c].elements@.len() implies (#[trigger] cs1[c].elements@[e])
            < bound by {
            if c == slot {
                assert(cs1[c].elements@[e] == cs0[m].elements@[e + cut]);
            } else if c == m {
                assert(cs1[c].elements@[e] == cs0[m].elements@[e]);
            } else {
                assert(cs1[c].elements@[e] == cs0[c].elements@[e]);
            }
        }
    }
    assert forall|x: usize| x < n0 implies #[trigger] covered(cs1, x) by {
        assert(covered(cs0, x));
        let c = choose|c: int| 0 <= c < cs0.len() && #[trigger] cs0[c].elements@.contains(x);
        let e = choose|e: int| 0 <= e < cs0[c].elements@.len() && cs0[c].elements@[e] == x;
        if c == m {
            if e < cut {
                assert(cs1[m].elements@[e] == x);
                assert(cs1[m].elements@.contains(x));
            } else {
                assert(cs1[slot].elements@[e - cut] == x);
                assert(cs1[slot].elements@.contains(x));
            }
        } else {
            assert(cs1[c].elements@[e] == x);
            assert(cs1[c].elements@.contains(x));
        }
    }
    // Totals: the slot gains exactly what the split cluster loses.
    let mid = cs0.update(m, cs1[m]);
    lemma_total_len_update(cs0, m, cs1[m]);
    lemma_total_len_update(mid, slot, cs1[slot]);
    assert(cs1 =~= mid.update(slot, cs1[slot]));
}

/// Relies on rand::random: an arbitrary value of the requested type; nothing
/// is promised of it.
pub assume_specification<T>[ rand::random::<T> ]() -> (r: T)
    where
        rand::distributions::Standard: rand::distributions::Distribution<T>,
;

/// The cluster's centroid is a copy of one of the stored vectors.
pub open spec fn seeded_from(vecs: Seq<Seq<u32>>, c: Cluster) -> bool {
    exists|v: int| 0 <= v < vecs.len() && c.centroid@ == vecs[v]
}

/// `n` clusters, each seeded with a uniformly drawn stored vector as its
/// centroid and no members. Which vectors are drawn is up to the random
/// source, so reproducibility across runs is not promised.
pub fn rand_centroids<A: VectorAccessor>(n: usize, vectors: &A) -> (r: Vec<Cluster>)
    requires
        vectors.vecs().len() >= 1,
    ensures
        r@.len() == n,
        forall|c: int|
            0 <= c < n ==> (#[trigger] r@[c]).centroid@.len() == vectors.spec_dim(),
        forall|c: int| 0 <= c < n ==> (#[trigger] r@[c]).elements@.len() == 0,
        forall|c: int| 0 <= c < n ==> seeded_from(vectors.vecs(), #[trigger] r@[c]),
{
    let vec_num: usize = vectors.len();
    proof {
        vectors.lemma_dims();
    }
    let mut r: Vec<Cluster> = Vec::new();
    let mut c: usize = 0;
    while c < n
        invariant
            c <= n,
            vec_num == vectors.vecs().len(),
            vec_num >= 1,
            r@.len() == c,
            forall|t: int|
                0 <= t < c ==> (#[trigger] r@[t]).centroid@.len() == vectors.spec_dim(),
            forall|t: int| 0 <= t < c ==> (#[trigger] r@[t]).elements@.len() == 0,
            forall|t: int| 0 <= t < c ==> seeded_from(vectors.vecs(), #[trigger] r@[t]),
            forall|i: int|
                0 <= i < vectors.vecs().len() ==> (#[trigger] vectors.vecs()[i]).len()
                    == vectors.spec_dim(),
        decreases n - c,
    {
        let draw: usize = rand::random::<usize>() % vec_num;
        let seed: &[u32] = vectors.get(draw);
        let centroid: Vec<u32> = vstd::slice::slice_to_vec(seed);
        r.push(Cluster::with_centroid(centroid));
        proof {
            assert(r@[c as int].centroid@ == vectors.vecs()[draw as int]);
            assert(seeded_from(vectors.vecs(), r@[c as int]));
        }
        c = c + 1;
    }
    r
}

/// Runs the clustering passes and returns the final cluster set: exactly
/// `nlist` clusters, none empty, together holding every stored vector id
/// exactly once; each centroid is the mean of the members its last pass
/// assigned (ids below the training-subset size), and ids assigned
/// afterwards sit behind them.
pub fn train_clusters<A: VectorAccessor>(
    metric_type: MetricType,
    vectors: &A,
    option: &TrainOption,
) -> (r: Vec<Cluster>)
    requires
        metric_type is L2,
        1 <= option.nlist <= vectors.vecs().len(),
        option.iteration_num matches Some(i) ==> i >= 1,
    ensures
        r@.len() == option.nlist,
        forall|c: int| 0 <= c < r@.len() ==> (#[trigger] r@[c]).elements@.len() >= 1,
        forall|c: int|
            0 <= c < r@.len() ==> (#[trigger] r@[c]).centroid@.len() == vectors.spec_dim(),
        clusters_ids_below(r@, vectors.vecs().len()),
        distinct_ids(r@),
        covers(r@, vectors.vecs().len() as int),
        forall|c: int|
            0 <= c < r@.len() ==> cluster_centered(
                #[trigger] r@[c],
                vectors.vecs(),
                vectors.spec_dim(),
                train_size_of(option.nlist as int, vectors.vecs().len() as int),
            ),
{
    let ghost vecs = vectors.vecs();
    let nlist: usize = option.nlist;
    let n_vec: usize = vectors.len();
    let dim: usize = vectors.dim();
    proof {
        vectors.lemma_dims();
    }

    // The capped training subset: ids 0 .. train_size take part in the
    // iterative passes.
    let train_size: usize = if nlist > n_vec / MAX_CLUSTER_SIZE {
        n_vec
    } else {
        nlist * MAX_CLUSTER_SIZE
    };
    proof {
        vstd::arithmetic::div_mod::lemma_fundamental_div_mod(n_vec as int, MAX_CLUSTER_SIZE as int);
        vstd::arithmetic::div_mod::lemma_mod_bound(n_vec as int, MAX_CLUSTER_SIZE as int);
        if nlist > n_vec / MAX_CLUSTER_SIZE {
            vstd::arithmetic::mul::lemma_mul_inequality(
                n_vec as int / MAX_CLUSTER_SIZE as int + 1,
                nlist as int,
                MAX_CLUSTER_SIZE as int,
            );
            assert((n_vec as int / MAX_CLUSTER_SIZE as int) * MAX_CLUSTER_SIZE as int
                + MAX_CLUSTER_SIZE as int == (n_vec as int / MAX_CLUSTER_SIZE as int + 1)
                * MAX_CLUSTER_SIZE as int) by (nonlinear_arith);
        } else {
            vstd::arithmetic::mul::lemma_mul_inequality(
                nlist as int,
                n_vec as int / MAX_CLUSTER_SIZE as int,
                MAX_CLUSTER_SIZE as int,
            );
        }
        assert(train_size as int == train_size_of(nlist as int, n_vec as int));
        vstd::arithmetic::mul::lemma_mul_left_inequality(nlist as int, 1, MAX_CLUSTER_SIZE as int);
        assert(train_size >= nlist);
    }
    let ghost ts = train_size as int;

    let iter_num: usize = match option.iteration_num {
        Some(i) => i,
        None => 10,
    };

    let mut clusters: Vec<Cluster> = rand_centroids(nlist, vectors);
    let mut adopted: bool = false;
    let mut last_wcss: u128 = 0;
    let mut done: bool = false;
    let mut it: usize = 0;
    while it < iter_num && !done
        invariant
            it <= iter_num,
            iter_num >= 1,
            metric_type is L2,
            vecs == vectors.vecs(),
            dim == vectors.spec_dim(),
            n_vec == vecs.len(),
            1 <= nlist <= n_vec,
            nlist <= train_size <= n_vec,
            ts == train_size as int,
            forall|i: int| 0 <= i < vecs.len() ==> (#[trigger] vecs[i]).len() == dim,
            clusters@.len() == nlist,
            forall|c: int|
                0 <= c < clusters@.len() ==> (#[trigger] clusters@[c]).centroid@.len() == dim,
            it >= 1 ==> adopted,
            done ==> adopted,
            adopted ==> trained_set(clusters@, vecs, dim as nat, ts, nlist as int),
        decreases iter_num - it,
    {
        // One pass: fresh accumulators, one per desired cluster.
        let mut new_clusters: Vec<Cluster> = Vec::new();
        let mut c: usize = 0;
        while c < nlist
            invariant
                c <= nlist,
                dim == vectors.spec_dim(),
                new_clusters@.len() == c,
                forall|t: int|
                    0 <= t < c ==> (#[trigger] new_clusters@[t]).centroid@.len() == dim,
                forall|t: int| 0 <= t < c ==> (#[trigger] new_clusters@[t]).elements@.len() == 0,
            decreases nlist - c,
        {
            new_clusters.push(Cluster::new(dim));
            c = c + 1;
        }
        proof {
            lemma_total_len_zero(new_clusters@);
        }

        // Assign each training vector to its nearest current centroid.
        let mut id: usize = 0;
        while id < train_size
            invariant
                id <= train_size,
                metric_type is L2,
                vecs == vectors.vecs(),
                dim == vectors.spec_dim(),
                n_vec == vecs.len(),
                1 <= nlist,
                train_size <= n_vec,
                forall|i: int| 0 <= i < vecs.len() ==> (#[trigger] vecs[i]).len() == dim,
                clusters@.len() == nlist,
                forall|t: int|
                    0 <= t < clusters@.len() ==> (#[trigger] clusters@[t]).centroid@.len() == dim,
                new_clusters@.len() == nlist,
                forall|t: int|
                    0 <= t < nlist ==> (#[trigger] new_clusters@[t]).centroid@.len() == dim,
                clusters_ids_below(new_clusters@, id as nat),
                distinct_ids(new_clusters@),
                covers(new_clusters@, id as int),
                total_len(new_clusters@) == id,
            decreases train_size - id,
        {
            let row: &[u32] = vectors.get(id);
            let (target, _d): (usize, u128) = get_nearest_vector(row, &clusters, metric_type);
            let ghost before = new_clusters@;
            new_clusters[target].add(id);
            proof {
                lemma_push_fresh_id(before, new_clusters@, target as int, id);
            }
            id = id + 1;
        }

        // Revive empty clusters: give each one half the members of the
        // currently largest cluster (the first largest on ties). The training
        // subset is at least as large as the cluster count, so a splittable
        // cluster always exists.
        let mut slot: usize = 0;
        while slot < nlist
            invariant
                slot <= nlist,
                vecs == vectors.vecs(),
                dim == vectors.spec_dim(),
                n_vec == vecs.len(),
                1 <= nlist,
                nlist <= train_size <= n_vec,
                ts == train_size as int,
                new_clusters@.len() == nlist,
                forall|t: int|
                    0 <= t < nlist ==> (#[trigger] new_clusters@[t]).centroid@.len() == dim,
                clusters_ids_below(new_clusters@, ts as nat),
                distinct_ids(new_clusters@),
                covers(new_clusters@, ts),
                total_len(new_clusters@) == ts,
                forall|t: int|
                    0 <= t < slot ==> (#[trigger] new_clusters@[t]).elements@.len() >= 1,
            decreases nlist - slot,
        {
            if new_clusters[slot].len() == 0 {
                // Find the first largest cluster.
                let mut m: usize = 0;
                let mut t: usize = 1;
                while t < nlist
                    invariant
                        1 <= t <= nlist,
                        m < t,
                        new_clusters@.len() == nlist,
                        forall|u: int|
                            0 <= u < t ==> (#[trigger] new_clusters@[u]).elements@.len()
                                <= new_clusters@[m as int].elements@.len(),
                    decreases nlist - t,
                {
                    if new_clusters[t].len() > new_clusters[m].len() {
                        m = t;
                    }
                    t = t + 1;
                }
                proof {
                    if new_clusters@[m as int].elements@.len() <= 1 {
                        lemma_total_len_small(new_clusters@, slot as int);
                        assert(false);
                    }
                }
                let ghost before = new_clusters@;
                let sibling: Cluster = new_clusters[m].split();
                let ghost mid = new_clusters@;
                new_clusters.set(slot, sibling);
                proof {
                    let le = before[m as int].elements@.len() as int;
                    let cut = le - le / 2;
                    assert(new_clusters@[m as int].elements@ == before[m as int].elements@.subrange(
                        0,
                        cut,
                    ));
                    assert(new_clusters@[slot as int].elements@ == before[m
                        as int].elements@.subrange(cut, le));
                    lemma_split_redistributes(
                        before,
                        new_clusters@,
                        m as int,
                        slot as int,
                        cut,
                        ts,
                        ts as nat,
                    );
                }
            }
            slot = slot + 1;
        }

        // Recompute every centroid as the mean of its members, summing the
        // within-cluster sum of squares of the pass.
        let mut wcss: u128 = 0;
        let mut c2: usize = 0;
        while c2 < nlist
            invariant
                c2 <= nlist,
                vecs == vectors.vecs(),
                dim == vectors.spec_dim(),
                n_vec == vecs.len(),
                nlist <= train_size <= n_vec,
                ts == train_size as int,
                new_clusters@.len() == nlist,
                forall|t: int|
                    0 <= t < nlist ==> (#[trigger] new_clusters@[t]).elements@.len() >= 1,
                clusters_ids_below(new_clusters@, ts as nat),
                distinct_ids(new_clusters@),
                covers(new_clusters@, ts),
                forall|t: int|
                    c2 <= t < nlist ==> (#[trigger] new_clusters@[t]).centroid@.len() == dim,
                forall|t: int|
                    0 <= t < c2 ==> (#[trigger] new_clusters@[t]).centroid@ == centroid_of(
                        vecs,
                        new_clusters@[t].elements@,
                        dim as nat,
                    ),
            decreases nlist - c2,
        {
            proof {
                assert(elems_in_range(new_clusters@[c2 as int].elements@, vecs.len())) by {
                    assert(elems_in_range(new_clusters@[c2 as int].elements@, ts as nat));
                }
            }
            let ghost before = new_clusters@;
            let cluster_wcss: u128 = new_clusters[c2].calc_centroid(vectors);
            proof {
                assert(forall|t: int|
                    0 <= t < nlist && t != c2 ==> new_clusters@[t] == before[t]);
                assert(distinct_ids(new_clusters@)) by {
                    assert(forall|t: int|
                        0 <= t < nlist ==> (#[trigger] new_clusters@[t]).elements@
                            == before[t].elements@);
                }
                assert forall|x: usize| x < ts implies #[trigger] covered(new_clusters@, x) by {
                    assert(covered(before, x));
                    let cc = choose|cc: int|
                        0 <= cc < before.len() && #[trigger] before[cc].elements@.contains(x);
                    assert(new_clusters@[cc].elements@ == before[cc].elements@);
                }
            }
            wcss = if wcss > u128::MAX - cluster_wcss {
                u128::MAX
            } else {
                wcss + cluster_wcss
            };
            c2 = c2 + 1;
        }
        proof {
            assert(trained_set(new_clusters@, vecs, dim as nat, ts, nlist as int));
        }

        // Adopt the pass unless it is strictly worse than the previous one;
        // stop as soon as the objective fails to strictly improve.
        if adopted && wcss > last_wcss {
            done = true;
        } else {
            clusters = new_clusters;
            if adopted && wcss >= last_wcss {
                done = true;
            } else {
                last_wcss = wcss;
            }
            adopted = true;
        }
        it = it + 1;
    }

    // Assign the vectors outside the training subset to their nearest final
    // centroid, without moving centroids.
    proof {
        assert(adopted);
        assert forall|c: int| 0 <= c < clusters@.len() implies cluster_centered(
            #[trigger] clusters@[c],
            vecs,
            dim as nat,
            ts,
        ) by {
            let l = clusters@[c].elements@.len() as int;
            assert(clusters@[c].elements@.take(l) =~= clusters@[c].elements@);
            assert({
                &&& 0 < l <= clusters@[c].elements@.len()
                &&& (forall|e: int| 0 <= e < l ==> (#[trigger] clusters@[c].elements@[e]) < ts)
                &&& (forall|e: int|
                    l <= e < clusters@[c].elements@.len() ==> (#[trigger] clusters@[c].elements@[e])
                        >= ts)
                &&& clusters@[c].centroid@ == centroid_of(
                    vecs,
                    clusters@[c].elements@.take(l),
                    dim as nat,
                )
            });
        }
    }
    let mut id: usize = train_size;
    while id < n_vec
        invariant
            train_size <= id <= n_vec,
            metric_type is L2,
            vecs == vectors.vecs(),
            dim == vectors.spec_dim(),
            n_vec == vecs.len(),
            1 <= nlist,
            nlist <= train_size,
            ts == train_size as int,
            forall|i: int| 0 <= i < vecs.len() ==> (#[trigger] vecs[i]).len() == dim,
            clusters@.len() == nlist,
            forall|t: int|
                0 <= t < nlist ==> (#[trigger] clusters@[t]).centroid@.len() == dim,
            forall|t: int| 0 <= t < nlist ==> (#[trigger] clusters@[t]).elements@.len() >= 1,
            clusters_ids_below(clusters@, id as nat),
            distinct_ids(clusters@),
            covers(clusters@, id as int),
            forall|t: int|
                0 <= t < nlist ==> cluster_centered(#[trigger] clusters@[t], vecs, dim as nat, ts),
        decreases n_vec - id,
    {
        let row: &[u32] = vectors.get(id);
        let (target, _d): (usize, u128) = get_nearest_vector(row, &clusters, metric_type);
        let ghost before = clusters@;
        clusters[target].add(id);
        proof {
            lemma_push_fresh_id(before, clusters@, target as int, id);
            // The appended id is outside the training subset, so the trained
            // prefix and the centroid of the target cluster are untouched.
            assert forall|t: int| 0 <= t < nlist implies cluster_centered(
                #[trigger] clusters@[t],
                vecs,
                dim as nat,
                ts,
            ) by {
                if t == target as int {
                    let cut = choose|cut: int|
                        {
                            &&& 0 < cut <= before[t].elements@.len()
                            &&& (forall|e: int|
                                0 <= e < cut ==> (#[trigger] before[t].elements@[e]) < ts)
                            &&& (forall|e: int|
                                cut <= e < before[t].elements@.len() ==> (
                                #[trigger] before[t].elements@[e]) >= ts)
                            &&& before[t].centroid@ == centroid_of(
                                vecs,
                                before[t].elements@.take(cut),
                                dim as nat,
                            )
                        };
                    assert(clusters@[t].elements@.take(cut) =~= before[t].elements@.take(cut));
                    assert({
                        &&& 0 < cut <= clusters@[t].elements@.len()
                        &&& (forall|e: int|
                            0 <= e < cut ==> (#[trigger] clusters@[t].elements@[e]) < ts)
                        &&& (forall|e: int|
                            cut <= e < clusters@[t].elements@.len() ==> (
                            #[trigger] clusters@[t].elements@[e]) >= ts)
                        &&& clusters@[t].centroid@ == centroid_of(
                            vecs,
                            clusters@[t].elements@.take(cut),
                            dim as nat,
                        )
                    });
                } else {
                    assert(clusters@[t] == before[t]);
                }
            }
        }
        id = id + 1;
    }
    clusters
}

/// Clusters with no members hold no members in total.
proof fn lemma_total_len_zero(cs: Seq<Cluster>)
    requires
        forall|c: int| 0 <= c < cs.len() ==> (#[trigger] cs[c]).elements@.len() == 0,
    ensures
        total_len(cs) == 0,
    decreases cs.len(),
{
    if cs.len() > 0 {
        lemma_total_len_zero(cs.drop_last());
    }
}

} // verus!
