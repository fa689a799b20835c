//! The inverted-file index: training partitions the stored vectors into
//! clusters around centroids; a search ranks the cluster centroids against
//! the query, probes a prefix of that ranking, and keeps the top-k closest
//! live members it meets.
use crate::deletion::bitmap_ids;
use crate::index::cluster::{elems_in_range, Cluster};
use crate::index::utils::{
    buf_has_id, cluster_order, is_cluster_order, is_topk_buf, lemma_topk_insert_maintains,
    lex_before, topk_insert, TopkIntermediate,
};
use crate::metric::{dist2, MetricType};
use crate::{AnnError, SearchOption, TrainOption, VectorAccessor};
use vstd::prelude::*;

verus! {

/// No two clusters share a member id and no cluster repeats one.
pub open spec fn distinct_ids(cs: Seq<Cluster>) -> bool {
    forall|c1: int, e1: int, c2: int, e2: int|
        0 <= c1 < cs.len() && 0 <= e1 < cs[c1].elements@.len() && 0 <= c2 < cs.len() && 0 <= e2
            < cs[c2].elements@.len() && (c1 != c2 || e1 != e2) ==> #[trigger] cs[c1].elements@[e1]
            != #[trigger] cs[c2].elements@[e2]
}

/// Some cluster holds the id.
pub open spec fn covered(cs: Seq<Cluster>, id: usize) -> bool {
    exists|c: int| 0 <= c < cs.len() && #[trigger] cs[c].elements@.contains(id)
}

/// Every id below `n` is held by some cluster.
pub open spec fn covers(cs: Seq<Cluster>, n: int) -> bool {
    forall|id: usize| id < n ==> #[trigger] covered(cs, id)
}

/// The member ids of `elems` that are not tombstoned, in order.
pub open spec fn live_ids(elems: Seq<usize>, del: Set<u32>) -> Seq<usize>
    decreases elems.len(),
{
    if elems.len() == 0 {
        Seq::empty()
    } else {
        let rest = live_ids(elems.drop_last(), del);
        if del.contains(elems.last() as u32) {
            rest
        } else {
            rest.push(elems.last())
        }
    }
}

/// The candidates of the first `p` probed clusters: the live members of
/// clusters `order[0]`, ..., `order[p - 1]`, in probe order.
pub open spec fn cands_upto(cs: Seq<Cluster>, order: Seq<usize>, del: Set<u32>, p: int) -> Seq<
    usize,
>
    decreases p,
{
    if p <= 0 {
        Seq::empty()
    } else {
        cands_upto(cs, order, del, p - 1) + live_ids(cs[order[p - 1] as int].elements@, del)
    }
}

/// A live id comes from `elems` and is not tombstoned.
pub proof fn lemma_live_ids_source(elems: Seq<usize>, del: Set<u32>, x: usize)
    requires
        live_ids(elems, del).contains(x),
    ensures
        elems.contains(x),
        !del.contains(x as u32),
    decreases elems.len(),
{
    let rest = live_ids(elems.drop_last(), del);
    if !del.contains(elems.last() as u32) && x == elems.last() {
        assert(elems[elems.len() - 1] == x);
    } else {
        assert(rest.contains(x)) by {
            if !del.contains(elems.last() as u32) {
                let i = choose|i: int|
                    0 <= i < rest.push(elems.last()).len() && rest.push(elems.last())[i] == x;
                assert(rest[i] == x);
            }
        }
        lemma_live_ids_source(elems.drop_last(), del, x);
        let e = choose|e: int| 0 <= e < elems.drop_last().len() && elems.drop_last()[e] == x;
        assert(elems[e] == x);
    }
}

/// A candidate of the first `p` probed clusters is a live member of one of
/// them.
pub proof fn lemma_cands_source(
    cs: Seq<Cluster>,
    order: Seq<usize>,
    del: Set<u32>,
    p: int,
    x: usize,
)
    requires
        0 <= p <= order.len(),
        cands_upto(cs, order, del, p).contains(x),
    ensures
        exists|ci: int|
            0 <= ci < p && cs[#[trigger] order[ci] as int].elements@.contains(x),
        !del.contains(x as u32),
    decreases p,
{
    let a = cands_upto(cs, order, del, p - 1);
    let b = live_ids(cs[order[p - 1] as int].elements@, del);
    let i = choose|i: int| 0 <= i < (a + b).len() && (a + b)[i] == x;
    if i < a.len() {
        assert(a[i] == x);
        lemma_cands_source(cs, order, del, p - 1, x);
        let cj = choose|cj: int|
            0 <= cj < p - 1 && cs[#[trigger] order[cj] as int].elements@.contains(x);
        assert(cs[order[cj] as int].elements@.contains(x));
    } else {
        assert(b[i - a.len()] == x);
        lemma_live_ids_source(cs[order[p - 1] as int].elements@, del, x);
        assert(cs[#[trigger] order[p - 1] as int].elements@.contains(x));
    }
}

/// The outcome the probe-and-rank search owes for the probe ranking `order`:
/// `ids` are distinct candidates, as many as `topk` and the candidate count
/// allow, and no candidate left out is closer than any returned id.
pub open spec fn search_result_for(
    cs: Seq<Cluster>,
    vecs: Seq<Seq<u32>>,
    q: Seq<u32>,
    del: Set<u32>,
    order: Seq<usize>,
    nprobe: int,
    topk: int,
    ids: Seq<usize>,
) -> bool {
    let cands = cands_upto(cs, order, del, vstd::math::min(nprobe, cs.len() as int));
    &&& ids.len() == vstd::math::min(topk, cands.len() as int)
    &&& forall|i: int| 0 <= i < ids.len() ==> cands.contains(#[trigger] ids[i])
    &&& forall|i: int, j: int| 0 <= i < j < ids.len() ==> ids[i] != ids[j]
    &&& forall|i: int, c: int|
        0 <= i < ids.len() && 0 <= c < cands.len() && !ids.contains(#[trigger] cands[c])
            ==> dist2(q, vecs[#[trigger] ids[i] as int]) <= dist2(q, vecs[cands[c] as int])
}

/// What a successful search returns: the result of probing the `nprobe`
/// clusters whose centroids rank nearest to the query (stable ties), then
/// keeping the `topk` closest live members of those clusters.
pub open spec fn search_ok(
    cs: Seq<Cluster>,
    vecs: Seq<Seq<u32>>,
    q: Seq<u32>,
    del: Set<u32>,
    nprobe: int,
    topk: int,
    ids: Seq<usize>,
) -> bool {
    exists|order: Seq<usize>|
        is_cluster_order(cs, q, order) && search_result_for(
            cs,
            vecs,
            q,
            del,
            order,
            nprobe,
            topk,
            ids,
        )
}

/// Position `(c1, e1)` comes before the cursor `(c2, e2)` in a
/// cluster-by-cluster, member-by-member walk.
spec fn pos_before(c1: int, e1: int, c2: int, e2: int) -> bool {
    c1 < c2 || (c1 == c2 && e1 < e2)
}

/// Some position before the cursor holds the id `x`.
spec fn covered_before(cs: Seq<Cluster>, cc: int, ce: int, x: usize) -> bool {
    exists|c1: int, e1: int|
        0 <= c1 < cs.len() && 0 <= e1 < cs[c1].elements@.len() && pos_before(c1, e1, cc, ce) && (
        #[trigger] cs[c1].elements@[e1]) == x
}

/// No two positions before the cursor hold the same id.
spec fn prefix_distinct(cs: Seq<Cluster>, cc: int, ce: int) -> bool {
    forall|c1: int, e1: int, c2: int, e2: int|
        0 <= c1 < cs.len() && 0 <= e1 < cs[c1].elements@.len() && pos_before(c1, e1, cc, ce) && 0
            <= c2 < cs.len() && 0 <= e2 < cs[c2].elements@.len() && pos_before(c2, e2, cc, ce) && (
        c1 != c2 || e1 != e2) ==> #[trigger] cs[c1].elements@[e1] != #[trigger] cs[c2].elements@[e2]
}

/// Every id before the cursor addresses one of `n` stored vectors.
spec fn prefix_below(cs: Seq<Cluster>, cc: int, ce: int, n: nat) -> bool {
    forall|c1: int, e1: int|
        0 <= c1 < cs.len() && 0 <= e1 < cs[c1].elements@.len() && pos_before(c1, e1, cc, ce) ==> (
        #[trigger] cs[c1].elements@[e1]) < n
}

/// The marks record exactly the ids held before the cursor.
spec fn seen_matches(cs: Seq<Cluster>, seen: Seq<bool>, cc: int, ce: int) -> bool {
    forall|x: int|
        0 <= x < seen.len() ==> ((#[trigger] seen[x]) <==> covered_before(cs, cc, ce, x as usize))
}

/// Walking the cursor off the end of cluster `c` is the same as standing at
/// the start of cluster `c + 1`.
proof fn lemma_cursor_advance(cs: Seq<Cluster>, seen: Seq<bool>, c: int, n: nat)
    requires
        0 <= c < cs.len(),
        prefix_distinct(cs, c, cs[c].elements@.len() as int),
        prefix_below(cs, c, cs[c].elements@.len() as int, n),
        seen_matches(cs, seen, c, cs[c].elements@.len() as int),
    ensures
        prefix_distinct(cs, c + 1, 0),
        prefix_below(cs, c + 1, 0, n),
        seen_matches(cs, seen, c + 1, 0),
{
    let ce = cs[c].elements@.len() as int;
    assert forall|x: int| 0 <= x < seen.len() implies ((#[trigger] seen[x]) <==> covered_before(
        cs,
        c + 1,
        0,
        x as usize,
    )) by {
        if seen[x] {
            let (c1, e1) = choose|c1: int, e1: int|
                0 <= c1 < cs.len() && 0 <= e1 < cs[c1].elements@.len() && pos_before(c1, e1, c, ce)
                    && (#[trigger] cs[c1].elements@[e1]) == x as usize;
            assert(pos_before(c1, e1, c + 1, 0));
            assert(covered_before(cs, c + 1, 0, x as usize));
        }
        if covered_before(cs, c + 1, 0, x as usize) {
            let (c1, e1) = choose|c1: int, e1: int|
                0 <= c1 < cs.len() && 0 <= e1 < cs[c1].elements@.len() && pos_before(
                    c1,
                    e1,
                    c + 1,
                    0,
                ) && (#[trigger] cs[c1].elements@[e1]) == x as usize;
            assert(pos_before(c1, e1, c, ce));
            assert(covered_before(cs, c, ce, x as usize));
        }
    }
}

/// The member lists of the models: ids address stored vectors and no id
/// appears twice, across or inside clusters.
pub open spec fn models_valid(models: Seq<(Seq<u32>, Seq<usize>)>, n: nat) -> bool {
    &&& forall|c: int, e: int|
        0 <= c < models.len() && 0 <= e < models[c].1.len() ==> (#[trigger] models[c].1[e]) < n
    &&& forall|c1: int, e1: int, c2: int, e2: int|
        0 <= c1 < models.len() && 0 <= e1 < models[c1].1.len() && 0 <= c2 < models.len() && 0 <= e2
            < models[c2].1.len() && (c1 != c2 || e1 != e2) ==> #[trigger] models[c1].1[e1]
            != #[trigger] models[c2].1[e2]
}

/// The bytes decode and fit the store they are loaded against: the recorded
/// dimension is the store's, and the member ids form a valid assignment of
/// its vectors.
pub open spec fn decode_accepted(b: Seq<u8>, dim: nat, n: nat) -> bool {
    match crate::index::codec::decode_index(b) {
        Option::None => false,
        Option::Some(t) => t.2 == dim && models_valid(t.3, n),
    }
}

/// Two lists of every cluster index sorted by the strict probe priority
/// agree on their whole prefix of length `k`.
proof fn lemma_order_prefix_eq(cs: Seq<Cluster>, q: Seq<u32>, o1: Seq<usize>, o2: Seq<usize>, k: int)
    requires
        is_cluster_order(cs, q, o1),
        is_cluster_order(cs, q, o2),
        0 <= k <= o1.len(),
    ensures
        forall|t: int| 0 <= t < k ==> o1[t] == o2[t],
    decreases k,
{
    if k > 0 {
        lemma_order_prefix_eq(cs, q, o1, o2, k - 1);
        let i = k - 1;
        // Each list holds the other's element somewhere at or after `i`,
        // since the prefixes agree and entries repeat nowhere.
        assert(o2.contains(o1[i]));
        let t = choose|t: int| 0 <= t < o2.len() && o2[t] == o1[i];
        assert(t >= i) by {
            if t < i {
                assert(o1[t] == o2[t]);
                assert(lex_before(cs, q, o1[t] as int, o1[i] as int));
            }
        }
        assert(o1.contains(o2[i]));
        let s = choose|s: int| 0 <= s < o1.len() && o1[s] == o2[i];
        assert(s >= i) by {
            if s < i {
                assert(o2[s] == o1[s]);
                assert(lex_before(cs, q, o2[s] as int, o2[i] as int));
            }
        }
        if t > i && s > i {
            assert(lex_before(cs, q, o2[i] as int, o2[t] as int));
            assert(lex_before(cs, q, o1[i] as int, o1[s] as int));
            assert(false);
        }
    }
}

/// The probe priority is strict and total, so the ranking of the clusters
/// for a query is unique.
pub proof fn lemma_cluster_order_unique(cs: Seq<Cluster>, q: Seq<u32>, o1: Seq<usize>, o2: Seq<usize>)
    requires
        is_cluster_order(cs, q, o1),
        is_cluster_order(cs, q, o2),
    ensures
        o1 == o2,
{
    lemma_order_prefix_eq(cs, q, o1, o2, o1.len() as int);
    assert(o1 =~= o2);
}

/// An inverted-file index over the vectors of an accessor.
pub struct Ivf<A: VectorAccessor> {
    /// The read-only vector store this index was built over.
    pub vectors: A,
    /// The trained clusters; empty until trained or deserialized.
    pub clusters: Vec<Cluster>,
    /// The metric training chose; the untrained sentinel before that.
    pub metric_type: MetricType,
}

impl<A: VectorAccessor> Ivf<A> {
    /// Structural soundness: every centroid has the store's dimension, every
    /// member id addresses a stored vector, and no id is assigned twice.
    /// Training and deserialization establish it; search relies on it.
    pub open spec fn wf(&self) -> bool {
        &&& forall|c: int|
            0 <= c < self.clusters@.len() ==> (#[trigger] self.clusters@[c]).centroid@.len()
                == self.vectors.spec_dim()
        &&& forall|c: int|
            0 <= c < self.clusters@.len() ==> elems_in_range(
                (#[trigger] self.clusters@[c]).elements@,
                self.vectors.vecs().len(),
            )
        &&& distinct_ids(self.clusters@)
    }

    /// A new, untrained index over `vectors`.
    pub fn new(vectors: A) -> (r: Ivf<A>)
        ensures
            r.vectors == vectors,
            r.clusters@ == Seq::<Cluster>::empty(),
            r.metric_type is Untrained,
            r.wf(),
    {
        Ivf { vectors, clusters: Vec::new(), metric_type: MetricType::Untrained }
    }

    /// Trains the index: replaces any previous cluster state wholesale with
    /// a fresh clustering of the stored vectors under the option's metric,
    /// leaving exactly `nlist` non-empty clusters that together hold every
    /// stored vector id exactly once. Each centroid is the mean of the
    /// members its final pass assigned (the ids inside the training subset);
    /// ids outside that subset are assigned afterwards without moving
    /// centroids. Training wants a concrete metric and at least one stored
    /// vector per desired cluster.
    pub fn train(&mut self, option: &TrainOption)
        requires
            option.metric_type is L2,
            1 <= option.nlist <= old(self).vectors.vecs().len(),
            option.iteration_num matches Some(i) ==> i >= 1,
        ensures
            final(self).vectors == old(self).vectors,
            final(self).metric_type == option.metric_type,
            final(self).wf(),
            final(self).clusters@.len() == option.nlist,
            forall|c: int|
                0 <= c < final(self).clusters@.len()
                    ==> (#[trigger] final(self).clusters@[c]).elements@.len() >= 1,
            covers(final(self).clusters@, final(self).vectors.vecs().len() as int),
            forall|c: int|
                0 <= c < final(self).clusters@.len() ==> crate::index::util::cluster_centered(
                    #[trigger] final(self).clusters@[c],
                    final(self).vectors.vecs(),
                    final(self).vectors.spec_dim(),
                    crate::index::util::train_size_of(
                        option.nlist as int,
                        final(self).vectors.vecs().len() as int,
                    ),
                ),
    {
        self.metric_type = option.metric_type;
        self.clusters = crate::index::util::train_clusters(
            self.metric_type,
            &self.vectors,
            option,
        );
    }

    /// Serializes the cluster state into the versioned little-endian wire
    /// format. Pure in-memory encoding: the caller hands the bytes to its
    /// sink and must flush before reporting success. The caller promises
    /// what the format's 32-bit fields force: counts, dimension and ids must
    /// fit in a `u32`.
    pub fn serialize(&self) -> (out: Vec<u8>)
        requires
            self.clusters@.len() <= u32::MAX,
            self.vectors.spec_dim() <= u32::MAX,
            forall|c: int|
                0 <= c < self.clusters@.len() ==> (#[trigger] self.clusters@[c]).elements@.len()
                    <= u32::MAX,
            forall|c: int, e: int|
                0 <= c < self.clusters@.len() && 0 <= e < self.clusters@[c].elements@.len() ==> (
                #[trigger] self.clusters@[c].elements@[e]) <= u32::MAX,
        ensures
            out@ == crate::index::codec::encode_index(
                self.metric_type,
                self.vectors.spec_dim() as u32,
                self.clusters@,
            ),
    {
        let dim: usize = self.vectors.dim();
        crate::index::codec::encode_index_bytes(self.metric_type, dim as u32, &self.clusters)
    }

    /// Replaces the cluster state wholesale with the one a byte stream
    /// carries, after checking it against the store: the recorded dimension
    /// must be the store's, every member id must address a stored vector,
    /// and no id may appear twice. Truncated bytes and failed checks are
    /// distinct errors, and either leaves the index exactly as it was.
    pub fn deserialize(&mut self, bytes: &[u8]) -> (r: Result<(), AnnError>)
        ensures
            final(self).vectors == old(self).vectors,
            (r is Ok) <==> decode_accepted(
                bytes@,
                old(self).vectors.spec_dim(),
                old(self).vectors.vecs().len(),
            ),
            match r {
                Ok(u) => {
                    &&& crate::index::codec::decode_index(bytes@) matches Option::Some(t)
                        && final(self).metric_type == t.1 && crate::index::codec::cluster_models(
                        final(self).clusters@,
                    ) == t.3
                    &&& final(self).wf()
                },
                Err(e) => {
                    &&& *final(self) == *old(self)
                    &&& (e == AnnError::DecodeTruncated || e == AnnError::DecodeInvalid)
                    &&& ((e == AnnError::DecodeTruncated) <==> (crate::index::codec::decode_index(
                        bytes@,
                    ) is None))
                },
            },
    {
        let parsed = crate::index::codec::decode_index_bytes(bytes);
        match parsed {
            Err(e) => Err(e),
            Ok((version, metric, dim32, clusters)) => {
                let ghost b = bytes@;
                let ghost cls = clusters@;
                let ghost models = crate::index::codec::cluster_models(cls);
                let dim: usize = self.vectors.dim();
                if dim32 as usize != dim {
                    return Err(AnnError::DecodeInvalid);
                }
                let n: usize = self.vectors.len();

                // Check the member ids: every id addresses a stored vector
                // and none appears twice.
                let mut seen: Vec<bool> = Vec::new();
                let mut i: usize = 0;
                while i < n
                    invariant
                        i <= n,
                        seen@.len() == i,
                        forall|x: int| 0 <= x < i ==> !(#[trigger] seen@[x]),
                    decreases n - i,
                {
                    seen.push(false);
                    i = i + 1;
                }

                let ccount: usize = clusters.len();
                let mut c: usize = 0;
                while c < ccount
                    invariant
                        c <= ccount,
                        ccount == cls.len(),
                        cls == clusters@,
                        b == bytes@,
                        n == old(self).vectors.vecs().len(),
                        *self == *old(self),
                        seen@.len() == n,
                        prefix_distinct(cls, c as int, 0),
                        prefix_below(cls, c as int, 0, n as nat),
                        seen_matches(cls, seen@, c as int, 0),
                        crate::index::codec::decode_index(b) == Option::Some(
                            (version, metric, dim32, crate::index::codec::cluster_models(cls)),
                        ),
                    decreases ccount - c,
                {
                    let m: usize = clusters[c].elements.len();
                    let mut e: usize = 0;
                    while e < m
                        invariant
                            e <= m,
                            c < ccount,
                            ccount == cls.len(),
                            cls == clusters@,
                            b == bytes@,
                            n == old(self).vectors.vecs().len(),
                            *self == *old(self),
                            m == cls[c as int].elements@.len(),
                            seen@.len() == n,
                            prefix_distinct(cls, c as int, e as int),
                            prefix_below(cls, c as int, e as int, n as nat),
                            seen_matches(cls, seen@, c as int, e as int),
                            crate::index::codec::decode_index(b) == Option::Some(
                                (version, metric, dim32, crate::index::codec::cluster_models(cls)),
                            ),
                        decreases m - e,
                    {
                        let id: usize = clusters[c].elements[e];
                        proof {
                            assert(crate::index::codec::cluster_models(cls)[c as int].1 == cls[c
                                as int].elements@);
                        }
                        if id >= n {
                            // A foreign id: the record does not belong to
                            // this store.
                            return Err(AnnError::DecodeInvalid);
                        }
                        if seen[id] {
                            proof {
                                // A second occurrence: point at the first.
                                let (c1, e1) = choose|c1: int, e1: int|
                                    0 <= c1 < cls.len() && 0 <= e1 < cls[c1].elements@.len()
                                        && pos_before(c1, e1, c as int, e as int) && (
                                    #[trigger] cls[c1].elements@[e1]) == id;
                                assert(crate::index::codec::cluster_models(cls)[c1].1
                                    == cls[c1].elements@);
                                assert(!models_valid(
                                    crate::index::codec::cluster_models(cls),
                                    n as nat,
                                ));
                            }
                            return Err(AnnError::DecodeInvalid);
                        }
                        let ghost seen0 = seen@;
                        seen.set(id, true);
                        proof {
                            // The id is new, so marking it keeps the record
                            // exact and the walked prefix duplicate-free.
                            assert forall|x: int|
                                0 <= x < seen@.len() implies ((#[trigger] seen@[x])
                                <==> covered_before(cls, c as int, e + 1, x as usize)) by {
                                if x == id {
                                    assert(cls[c as int].elements@[e as int] == id);
                                    assert(pos_before(c as int, e as int, c as int, e + 1));
                                    assert(covered_before(cls, c as int, e + 1, id));
                                } else {
                                    if seen@[x] {
                                        let (c1, e1) = choose|c1: int, e1: int|
                                            0 <= c1 < cls.len() && 0 <= e1
                                                < cls[c1].elements@.len() && pos_before(
                                                c1,
                                                e1,
                                                c as int,
                                                e as int,
                                            ) && (#[trigger] cls[c1].elements@[e1]) == x as usize;
                                        assert(pos_before(c1, e1, c as int, e + 1));
                                        assert(covered_before(cls, c as int, e + 1, x as usize));
                                    }
                                    if covered_before(cls, c as int, e + 1, x as usize) {
                                        let (c1, e1) = choose|c1: int, e1: int|
                                            0 <= c1 < cls.len() && 0 <= e1
                                                < cls[c1].elements@.len() && pos_before(
                                                c1,
                                                e1,
                                                c as int,
                                                e + 1,
                                            ) && (#[trigger] cls[c1].elements@[e1]) == x as usize;
                                        if c1 == c as int && e1 == e as int {
                                            assert(x == id);
                                            assert(false);
                                        }
                                        assert(pos_before(c1, e1, c as int, e as int));
                                        assert(covered_before(cls, c as int, e as int, x as usize));
                                    }
                                }
                            }
                            assert forall|c1: int, e1: int, c2: int, e2: int|
                                0 <= c1 < cls.len() && 0 <= e1 < cls[c1].elements@.len()
                                    && pos_before(c1, e1, c as int, e + 1) && 0 <= c2 < cls.len()
                                    && 0 <= e2 < cls[c2].elements@.len() && pos_before(
                                    c2,
                                    e2,
                                    c as int,
                                    e + 1,
                                ) && (c1 != c2 || e1 != e2) implies #[trigger] cls[c1].elements@[e1]
                                != #[trigger] cls[c2].elements@[e2] by {
                                if c1 == c as int && e1 == e as int {
                                    if cls[c2].elements@[e2] == id {
                                        assert(covered_before(cls, c as int, e as int, id));
                                        assert(seen0[id as int]);
                                        assert(false);
                                    }
                                } else if c2 == c as int && e2 == e as int {
                                    if cls[c1].elements@[e1] == id {
                                        assert(covered_before(cls, c as int, e as int, id));
                                        assert(seen0[id as int]);
                                        assert(false);
                                    }
                                }
                            }
                        }
                        e = e + 1;
                    }
                    proof {
                        lemma_cursor_advance(cls, seen@, c as int, n as nat);
                    }
                    c = c + 1;
                }

                proof {
                    // The walk covered every position, so the models are a
                    // valid assignment and the new state is well-formed.
                    assert forall|c1: int, e1: int|
                        0 <= c1 < cls.len() && 0 <= e1 < cls[c1].elements@.len() implies pos_before(
                        c1,
                        e1,
                        cls.len() as int,
                        0,
                    ) by {}
                    assert(models_valid(models, n as nat)) by {
                        assert(forall|t: int|
                            0 <= t < cls.len() ==> (#[trigger] models[t]).1 == cls[t].elements@);
                    }
                    assert(distinct_ids(cls));
                    assert forall|t: int| 0 <= t < cls.len() implies elems_in_range(
                        (#[trigger] cls[t]).elements@,
                        old(self).vectors.vecs().len(),
                    ) by {}
                    crate::index::codec::lemma_decode_models_dims(
                        b,
                        11,
                        dim32 as int,
                        crate::index::codec::u32_at(b, 7) as int,
                        models,
                    );
                    assert forall|t: int| 0 <= t < cls.len() implies (
                    #[trigger] cls[t]).centroid@.len() == old(self).vectors.spec_dim() by {
                        assert(models[t].0 == cls[t].centroid@);
                    }
                }
                self.metric_type = metric;
                self.clusters = clusters;
                Ok(())
            },
        }
    }

    /// Probes the `nprobe` clusters whose centroids are nearest to the query
    /// (full ranking, stable ties) and returns the ids of the `topk` closest
    /// live members found there — all of them when fewer remain. The order
    /// of the returned ids is unspecified; callers wanting ranked output
    /// sort by distance themselves.
    ///
    /// An untrained index cannot measure distance, and a query of a foreign
    /// length has no distance to any stored vector: both fail, loudly and
    /// without a result.
    pub fn search(
        &self,
        query_vector: &[u32],
        deleted: &roaring::RoaringBitmap,
        option: &SearchOption,
    ) -> (r: Result<Vec<usize>, AnnError>)
        requires
            self.wf(),
        ensures
            (r is Ok) <==> (self.metric_type is L2 && query_vector@.len()
                == self.vectors.spec_dim()),
            match r {
                Ok(ids) => {
                    &&& search_ok(
                        self.clusters@,
                        self.vectors.vecs(),
                        query_vector@,
                        bitmap_ids(*deleted),
                        option.nprobe as int,
                        option.topk as int,
                        ids@,
                    )
                    &&& forall|i: int|
                        0 <= i < ids@.len() ==> !bitmap_ids(*deleted).contains(
                            #[trigger] ids@[i] as u32,
                        )
                    &&& forall|i: int|
                        0 <= i < ids@.len() ==> (#[trigger] ids@[i]) < self.vectors.vecs().len()
                },
                Err(e) => e == if self.metric_type is Untrained {
                    AnnError::Untrained
                } else {
                    AnnError::DimensionMismatch
                },
            },
    {
        if matches!(self.metric_type, MetricType::Untrained) {
            return Err(AnnError::Untrained);
        }
        let dim: usize = self.vectors.dim();
        if query_vector.len() != dim {
            return Err(AnnError::DimensionMismatch);
        }

        let ghost cs = self.clusters@;
        let ghost vecs = self.vectors.vecs();
        let ghost q = query_vector@;
        let ghost del = bitmap_ids(*deleted);
        proof {
            self.vectors.lemma_dims();
        }

        let order: Vec<usize> = cluster_order(&self.clusters, query_vector, self.metric_type);
        let n: usize = self.clusters.len();
        let p: usize = if option.nprobe < n {
            option.nprobe
        } else {
            n
        };
        let k: usize = option.topk;

        let mut buf: Vec<TopkIntermediate> = Vec::new();
        let mut ci: usize = 0;
        while ci < p
            invariant
                ci <= p,
                p == vstd::math::min(option.nprobe as int, cs.len() as int),
                n == cs.len(),
                cs == self.clusters@,
                vecs == self.vectors.vecs(),
                q == query_vector@,
                del == bitmap_ids(*deleted),
                self.wf(),
                self.metric_type is L2,
                q.len() == self.vectors.spec_dim(),
                forall|e: int|
                    0 <= e < vecs.len() ==> (#[trigger] vecs[e]).len() == self.vectors.spec_dim(),
                order@.len() == n,
                is_cluster_order(cs, q, order@),
                is_topk_buf(buf@, cands_upto(cs, order@, del, ci as int), k as int, q, vecs),
            decreases p - ci,
        {
            let oc: usize = order[ci];
            let m: usize = self.clusters[oc].elements.len();
            let mut ei: usize = 0;
            proof {
                assert(cands_upto(cs, order@, del, ci as int) + live_ids(
                    cs[oc as int].elements@.take(0),
                    del,
                ) =~= cands_upto(cs, order@, del, ci as int));
            }
            while ei < m
                invariant
                    ei <= m,
                    ci < p,
                    p == vstd::math::min(option.nprobe as int, cs.len() as int),
                    n == cs.len(),
                    cs == self.clusters@,
                    vecs == self.vectors.vecs(),
                    q == query_vector@,
                    del == bitmap_ids(*deleted),
                    self.wf(),
                    self.metric_type is L2,
                    q.len() == self.vectors.spec_dim(),
                    forall|e: int|
                        0 <= e < vecs.len() ==> (#[trigger] vecs[e]).len()
                            == self.vectors.spec_dim(),
                    order@.len() == n,
                    is_cluster_order(cs, q, order@),
                    oc == order@[ci as int],
                    oc < n,
                    m == cs[oc as int].elements@.len(),
                    is_topk_buf(
                        buf@,
                        cands_upto(cs, order@, del, ci as int) + live_ids(
                            cs[oc as int].elements@.take(ei as int),
                            del,
                        ),
                        k as int,
                        q,
                        vecs,
                    ),
                decreases m - ei,
            {
                let id: usize = self.clusters[oc].elements[ei];
                let ghost seen = cands_upto(cs, order@, del, ci as int) + live_ids(
                    cs[oc as int].elements@.take(ei as int),
                    del,
                );
                proof {
                    assert(cs[oc as int].elements@.take(ei + 1).drop_last() =~= cs[oc
                        as int].elements@.take(ei as int));
                }
                if deleted.contains(id as u32) {
                    proof {
                        assert(live_ids(cs[oc as int].elements@.take(ei + 1), del) == live_ids(
                            cs[oc as int].elements@.take(ei as int),
                            del,
                        ));
                    }
                } else {
                    let row: &[u32] = self.vectors.get(id);
                    let d: u128 = self.metric_type.distance(query_vector, row);
                    proof {
                        // The id is fresh: earlier probed clusters are other
                        // clusters, and earlier members of this cluster sit at
                        // other positions; no two positions share an id.
                        assert(!seen.contains(id)) by {
                            if seen.contains(id) {
                                let a = cands_upto(cs, order@, del, ci as int);
                                let b = live_ids(cs[oc as int].elements@.take(ei as int), del);
                                let i0 = choose|i0: int|
                                    0 <= i0 < seen.len() && seen[i0] == id;
                                if i0 < a.len() {
                                    assert(a[i0] == id);
                                    lemma_cands_source(cs, order@, del, ci as int, id);
                                    let cj = choose|cj: int|
                                        0 <= cj < ci && cs[#[trigger] order@[cj] as int].elements@.contains(
                                            id,
                                        );
                                    let e2 = choose|e2: int|
                                        0 <= e2 < cs[order@[cj] as int].elements@.len()
                                            && cs[order@[cj] as int].elements@[e2] == id;
                                    // Distinct probe positions name distinct
                                    // clusters.
                                    assert(order@[cj] != order@[ci as int]);
                                    assert(cs[order@[cj] as int].elements@[e2] != cs[oc
                                        as int].elements@[ei as int]);
                                } else {
                                    assert(b[i0 - a.len()] == id);
                                    lemma_live_ids_source(
                                        cs[oc as int].elements@.take(ei as int),
                                        del,
                                        id,
                                    );
                                    let e2 = choose|e2: int|
                                        0 <= e2 < ei && cs[oc as int].elements@.take(
                                            ei as int,
                                        )[e2] == id;
                                    assert(cs[oc as int].elements@[e2] != cs[oc
                                        as int].elements@[ei as int]);
                                }
                            }
                        }
                        assert(buf@.len() <= k);
                    }
                    let ghost buf0 = buf@;
                    topk_insert(&mut buf, k, id, d);
                    proof {
                        lemma_topk_insert_maintains(buf0, buf@, seen, k as int, q, vecs, id, d);
                        assert(live_ids(cs[oc as int].elements@.take(ei + 1), del) == live_ids(
                            cs[oc as int].elements@.take(ei as int),
                            del,
                        ).push(id));
                        assert(cands_upto(cs, order@, del, ci as int) + live_ids(
                            cs[oc as int].elements@.take(ei + 1),
                            del,
                        ) =~= seen.push(id));
                    }
                }
                ei = ei + 1;
            }
            proof {
                assert(cs[oc as int].elements@.take(m as int) =~= cs[oc as int].elements@);
                assert(cands_upto(cs, order@, del, ci as int + 1) == cands_upto(
                    cs,
                    order@,
                    del,
                    ci as int,
                ) + live_ids(cs[oc as int].elements@, del));
            }
            ci = ci + 1;
        }

        let ghost cands = cands_upto(cs, order@, del, p as int);
        let mut ids: Vec<usize> = Vec::new();
        let mut a: usize = 0;
        let bl: usize = buf.len();
        while a < bl
            invariant
                a <= bl,
                bl == buf@.len(),
                ids@.len() == a,
                forall|t: int| 0 <= t < a ==> (#[trigger] ids@[t]) == buf@[t].id,
            decreases bl - a,
        {
            let e_id: usize = buf[a].id;
            ids.push(e_id);
            a = a + 1;
        }

        proof {
            // The returned ids are exactly the buffer's ids.
            assert forall|x: usize| ids@.contains(x) <==> buf_has_id(buf@, x) by {
                if ids@.contains(x) {
                    let t = choose|t: int| 0 <= t < ids@.len() && ids@[t] == x;
                    assert(buf@[t].id == x);
                }
                if buf_has_id(buf@, x) {
                    let t = choose|t: int| 0 <= t < buf@.len() && buf@[t].id == x;
                    assert(ids@[t] == x);
                }
            }
            assert(search_result_for(
                cs,
                vecs,
                q,
                del,
                order@,
                option.nprobe as int,
                option.topk as int,
                ids@,
            )) by {
                assert forall|i: int, c: int|
                    0 <= i < ids@.len() && 0 <= c < cands.len() && !ids@.contains(
                        #[trigger] cands[c],
                    ) implies dist2(q, vecs[#[trigger] ids@[i] as int]) <= dist2(
                    q,
                    vecs[cands[c] as int],
                ) by {
                    assert(!buf_has_id(buf@, cands[c]));
                    assert(buf@[i].distance <= dist2(q, vecs[cands[c] as int]));
                }
            }
            assert(search_ok(cs, vecs, q, del, option.nprobe as int, option.topk as int, ids@));
            // No returned id is tombstoned, and each addresses a stored
            // vector.
            assert forall|i: int| 0 <= i < ids@.len() implies !del.contains(
                #[trigger] ids@[i] as u32,
            ) && ids@[i] < vecs.len() by {
                assert(cands.contains(ids@[i]));
                lemma_cands_source(cs, order@, del, p as int, ids@[i]);
                let cj = choose|cj: int|
                    0 <= cj < p && cs[#[trigger] order@[cj] as int].elements@.contains(ids@[i]);
                let e2 = choose|e2: int|
                    0 <= e2 < cs[order@[cj] as int].elements@.len() && cs[order@[cj]
                        as int].elements@[e2] == ids@[i];
                assert(elems_in_range(cs[order@[cj] as int].elements@, vecs.len()));
            }
        }
        Ok(ids)
    }
}

/// Round trip: the bytes a well-formed index serializes to are accepted
/// against the same store and decode back to the index's own metric type,
/// cluster count, centroids and member lists, in order. The bounds are the
/// ones serialization itself demands of its caller.
pub proof fn lemma_index_round_trip<A: VectorAccessor>(ivf: Ivf<A>)
    requires
        ivf.wf(),
        ivf.clusters@.len() <= u32::MAX,
        ivf.vectors.spec_dim() <= u32::MAX,
        forall|c: int|
            0 <= c < ivf.clusters@.len() ==> (#[trigger] ivf.clusters@[c]).elements@.len()
                <= u32::MAX,
        forall|c: int, e: int|
            0 <= c < ivf.clusters@.len() && 0 <= e < ivf.clusters@[c].elements@.len() ==> (
            #[trigger] ivf.clusters@[c].elements@[e]) <= u32::MAX,
    ensures
        crate::index::codec::decode_index(
            crate::index::codec::encode_index(
                ivf.metric_type,
                ivf.vectors.spec_dim() as u32,
                ivf.clusters@,
            ),
        ) == Option::Some(
            (
                crate::index::codec::FORMAT_VERSION,
                ivf.metric_type,
                ivf.vectors.spec_dim() as u32,
                crate::index::codec::cluster_models(ivf.clusters@),
            ),
        ),
        decode_accepted(
            crate::index::codec::encode_index(
                ivf.metric_type,
                ivf.vectors.spec_dim() as u32,
                ivf.clusters@,
            ),
            ivf.vectors.spec_dim(),
            ivf.vectors.vecs().len(),
        ),
{
    let cs = ivf.clusters@;
    let models = crate::index::codec::cluster_models(cs);
    crate::index::codec::lemma_encode_decode(
        ivf.metric_type,
        ivf.vectors.spec_dim() as u32,
        cs,
    );
    assert(forall|c: int| 0 <= c < models.len() ==> (#[trigger] models[c]).1 == cs[c].elements@);
    assert(models_valid(models, ivf.vectors.vecs().len()));
}

/// How many ids a successful search returns: exactly its `topk`, or all of
/// the live members reachable in the probed clusters when fewer remain.
pub proof fn lemma_search_result_size(
    cs: Seq<Cluster>,
    vecs: Seq<Seq<u32>>,
    q: Seq<u32>,
    del: Set<u32>,
    order: Seq<usize>,
    nprobe: int,
    topk: int,
    ids: Seq<usize>,
)
    requires
        search_ok(cs, vecs, q, del, nprobe, topk, ids),
        is_cluster_order(cs, q, order),
    ensures
        ids.len() == vstd::math::min(
            topk,
            cands_upto(cs, order, del, vstd::math::min(nprobe, cs.len() as int)).len() as int,
        ),
{
    let o = choose|o: Seq<usize>|
        is_cluster_order(cs, q, o) && search_result_for(cs, vecs, q, del, o, nprobe, topk, ids);
    lemma_cluster_order_unique(cs, q, o, order);
}

/// A member that is not tombstoned is among its cluster's live ids.
proof fn lemma_live_ids_member(elems: Seq<usize>, del: Set<u32>, e: int)
    requires
        0 <= e < elems.len(),
        !del.contains(elems[e] as u32),
    ensures
        live_ids(elems, del).contains(elems[e]),
    decreases elems.len(),
{
    let rest = live_ids(elems.drop_last(), del);
    if e == elems.len() - 1 {
        assert(live_ids(elems, del)[rest.len() as int] == elems[e]);
    } else {
        lemma_live_ids_member(elems.drop_last(), del, e);
        let i = choose|i: int| 0 <= i < rest.len() && rest[i] == elems.drop_last()[e];
        assert(live_ids(elems, del)[i] == elems[e]);
    }
}

/// A live member of a probed cluster is a candidate.
proof fn lemma_cands_member(
    cs: Seq<Cluster>,
    order: Seq<usize>,
    del: Set<u32>,
    p: int,
    ci: int,
    e: int,
)
    requires
        0 <= ci < p <= order.len(),
        order[ci] < cs.len(),
        0 <= e < cs[order[ci] as int].elements@.len(),
        !del.contains(cs[order[ci] as int].elements@[e] as u32),
    ensures
        cands_upto(cs, order, del, p).contains(cs[order[ci] as int].elements@[e]),
    decreases p,
{
    let x = cs[order[ci] as int].elements@[e];
    let a = cands_upto(cs, order, del, p - 1);
    let b = live_ids(cs[order[p - 1] as int].elements@, del);
    if ci == p - 1 {
        lemma_live_ids_member(cs[order[ci] as int].elements@, del, e);
        let i = choose|i: int| 0 <= i < b.len() && b[i] == x;
        assert((a + b)[a.len() + i] == x);
    } else {
        lemma_cands_member(cs, order, del, p - 1, ci, e);
        let i = choose|i: int| 0 <= i < a.len() && a[i] == x;
        assert((a + b)[i] == x);
    }
}

/// A sequence of distinct values, each of which occurs in another sequence,
/// is no longer than that sequence.
proof fn lemma_distinct_contained_len(sub: Seq<usize>, sup: Seq<usize>)
    requires
        forall|i: int, j: int| 0 <= i < j < sub.len() ==> sub[i] != sub[j],
        forall|i: int| 0 <= i < sub.len() ==> sup.contains(#[trigger] sub[i]),
    ensures
        sub.len() <= sup.len(),
{
    let sub_set = Set::new(|x: usize| sub.contains(x));
    let sup_set = Set::new(|x: usize| sup.contains(x));
    lemma_distinct_seq_card(sub);
    lemma_seq_values_card(sup);
    assert forall|x: usize| sub_set.contains(x) implies sup_set.contains(x) by {
        let i = choose|i: int| 0 <= i < sub.len() && sub[i] == x;
        assert(sup.contains(sub[i]));
    }
    vstd::set_lib::lemma_len_subset(sub_set, sup_set);
}

/// The values of a duplicate-free sequence form a set of its length.
proof fn lemma_distinct_seq_card(s: Seq<usize>)
    requires
        forall|i: int, j: int| 0 <= i < j < s.len() ==> s[i] != s[j],
    ensures
        Set::new(|x: usize| s.contains(x)).finite(),
        Set::new(|x: usize| s.contains(x)).len() == s.len(),
    decreases s.len(),
{
    let vs = Set::new(|x: usize| s.contains(x));
    if s.len() == 0 {
        assert(vs =~= Set::<usize>::empty());
    } else {
        lemma_distinct_seq_card(s.drop_last());
        let prev = Set::new(|x: usize| s.drop_last().contains(x));
        assert(!prev.contains(s.last())) by {
            if prev.contains(s.last()) {
                let i = choose|i: int|
                    0 <= i < s.drop_last().len() && s.drop_last()[i] == s.last();
                assert(s[i] == s[s.len() - 1]);
            }
        }
        assert(vs =~= prev.insert(s.last())) by {
            assert forall|x: usize| vs.contains(x) implies prev.insert(s.last()).contains(x) by {
                let i = choose|i: int| 0 <= i < s.len() && s[i] == x;
                if i < s.len() - 1 {
                    assert(s.drop_last()[i] == x);
                }
            }
            assert forall|x: usize| prev.insert(s.last()).contains(x) implies vs.contains(x) by {
                if prev.contains(x) {
                    let i = choose|i: int| 0 <= i < s.drop_last().len() && s.drop_last()[i] == x;
                    assert(s[i] == x);
                } else {
                    assert(s[s.len() - 1] == x);
                }
            }
        }
    }
}

/// The values of any sequence form a finite set of at most its length.
proof fn lemma_seq_values_card(s: Seq<usize>)
    ensures
        Set::new(|x: usize| s.contains(x)).finite(),
        Set::new(|x: usize| s.contains(x)).len() <= s.len(),
    decreases s.len(),
{
    let vs = Set::new(|x: usize| s.contains(x));
    if s.len() == 0 {
        assert(vs =~= Set::<usize>::empty());
    } else {
        lemma_seq_values_card(s.drop_last());
        let prev = Set::new(|x: usize| s.drop_last().contains(x));
        assert forall|x: usize| vs.contains(x) implies prev.insert(s.last()).contains(x) by {
            let i = choose|i: int| 0 <= i < s.len() && s[i] == x;
            if i < s.len() - 1 {
                assert(s.drop_last()[i] == x);
            }
        }
        if vs =~= prev.insert(s.last()) {
        } else {
            assert forall|x: usize| prev.contains(x) implies vs.contains(x) by {
                let i = choose|i: int|
                    0 <= i < s.drop_last().len() && s.drop_last()[i] == x;
                assert(s[i] == x);
            }
            assert(s.contains(s.last()));
            assert(vs =~= prev.insert(s.last()));
        }
    }
}

/// Self-recall: a stored vector at squared distance zero from the query is
/// among the returned ids whenever its cluster is probed, it is not
/// tombstoned, and at most `topk` candidates of the probed clusters lie at
/// distance zero. (With more zero-distance candidates than `topk`, some
/// necessarily stay out.)
pub proof fn lemma_self_recall(
    cs: Seq<Cluster>,
    vecs: Seq<Seq<u32>>,
    q: Seq<u32>,
    del: Set<u32>,
    order: Seq<usize>,
    nprobe: int,
    topk: int,
    ids: Seq<usize>,
    ci: int,
    e: int,
)
    requires
        search_ok(cs, vecs, q, del, nprobe, topk, ids),
        is_cluster_order(cs, q, order),
        0 <= ci < vstd::math::min(nprobe, cs.len() as int),
        order[ci] < cs.len(),
        0 <= e < cs[order[ci] as int].elements@.len(),
        !del.contains(cs[order[ci] as int].elements@[e] as u32),
        dist2(q, vecs[cs[order[ci] as int].elements@[e] as int]) == 0,
        cands_upto(cs, order, del, vstd::math::min(nprobe, cs.len() as int)).filter(
            (|x: usize| dist2(q, vecs[x as int]) == 0),
        ).len() <= topk,
    ensures
        ids.contains(cs[order[ci] as int].elements@[e]),
{
    broadcast use vstd::seq_lib::group_filter_ensures;

    let v = cs[order[ci] as int].elements@[e];
    let p = vstd::math::min(nprobe, cs.len() as int);
    let cands = cands_upto(cs, order, del, p);
    let o = choose|o: Seq<usize>|
        is_cluster_order(cs, q, o) && search_result_for(cs, vecs, q, del, o, nprobe, topk, ids);
    lemma_cluster_order_unique(cs, q, o, order);
    lemma_cands_member(cs, order, del, p, ci, e);
    if !ids.contains(v) {
        let cv = choose|cv: int| 0 <= cv < cands.len() && cands[cv] == v;
        // Everything returned is at least as close as the missing vector,
        // which sits at distance zero; distances cannot be negative.
        assert forall|i: int| 0 <= i < ids.len() implies dist2(q, vecs[#[trigger] ids[i] as int])
            == 0 by {
            crate::metric::lemma_dist2_bounds(q, vecs[ids[i] as int]);
        }
        let sub = ids.push(v);
        assert(forall|i: int| 0 <= i < ids.len() ==> sub[i] == #[trigger] ids[i]);
        assert(sub[ids.len() as int] == v);
        assert forall|i: int, j: int| 0 <= i < j < sub.len() implies sub[i] != sub[j] by {
            if j == ids.len() as int {
                assert(ids[i] != v);
            }
        }
        if ids.len() < topk {
            // The result then holds every candidate, yet one is missing.
            assert(ids.len() == cands.len());
            assert forall|i: int| 0 <= i < sub.len() implies cands.contains(#[trigger] sub[i]) by {}
            lemma_distinct_contained_len(sub, cands);
            assert(false);
        } else {
            // The result is full of zero-distance candidates, and the missing
            // vector is one more: too many for the cap on zero distances.
            let zpred = (|x: usize| dist2(q, vecs[x as int]) == 0);
            let zf = cands.filter(zpred);
            assert forall|i: int| 0 <= i < sub.len() implies zf.contains(#[trigger] sub[i]) by {
                if i < ids.len() {
                    let c = choose|c: int| 0 <= c < cands.len() && cands[c] == sub[i];
                    assert(zpred(cands[c]));
                    assert(zf.contains(cands[c]));
                } else {
                    assert(zpred(cands[cv]));
                    assert(zf.contains(cands[cv]));
                }
            }
            lemma_distinct_contained_len(sub, zf);
            assert(false);
        }
    }
}

} // verus!
