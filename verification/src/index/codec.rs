//! The binary wire format of a trained index.
//!
//! Little-endian, versioned. Layout: a `u16` format version, one metric
//! code byte, the dimension and the cluster count as `u32`; then, per
//! cluster, its member count as `u32`, the centroid coordinates, and the
//! member ids, 4 bytes each. Bytes after the last cluster are ignored, so a
//! stream may carry more than one record.
use crate::index::cluster::Cluster;
use crate::metric::MetricType;
use crate::AnnError;
use vstd::prelude::*;

verus! {

/// The version of the wire format this library writes.
pub const FORMAT_VERSION: u16 = 1;

/// The two little-endian bytes of `x`.
pub open spec fn le16(x: u16) -> Seq<u8> {
    seq![(x & 0xff) as u8, ((x >> 8) & 0xff) as u8]
}

/// The four little-endian bytes of `x`.
pub open spec fn le32(x: u32) -> Seq<u8> {
    seq![
        (x & 0xff) as u8,
        ((x >> 8) & 0xff) as u8,
        ((x >> 16) & 0xff) as u8,
        ((x >> 24) & 0xff) as u8,
    ]
}

/// The value of the two little-endian bytes at `pos`.
pub open spec fn u16_at(b: Seq<u8>, pos: int) -> u16 {
    (b[pos] as u16) | ((b[pos + 1] as u16) << 8)
}

/// The value of the four little-endian bytes at `pos`.
pub open spec fn u32_at(b: Seq<u8>, pos: int) -> u32 {
    (b[pos] as u32) | ((b[pos + 1] as u32) << 8) | ((b[pos + 2] as u32) << 16) | ((b[pos + 3]
        as u32) << 24)
}

/// Reading back the two bytes `le16` wrote yields the written value.
pub proof fn lemma_le16_at(b: Seq<u8>, pos: int, x: u16)
    requires
        0 <= pos,
        pos + 2 <= b.len(),
        b[pos + 0] == le16(x)[0],
        b[pos + 1] == le16(x)[1],
    ensures
        u16_at(b, pos) == x,
{
    assert((((x & 0xff) as u8) as u16) | (((((x >> 8) & 0xff) as u8) as u16) << 8) == x)
        by (bit_vector);
}

/// Reading back the four bytes `le32` wrote yields the written value.
pub proof fn lemma_le32_at(b: Seq<u8>, pos: int, x: u32)
    requires
        0 <= pos,
        pos + 4 <= b.len(),
        b[pos + 0] == le32(x)[0],
        b[pos + 1] == le32(x)[1],
        b[pos + 2] == le32(x)[2],
        b[pos + 3] == le32(x)[3],
    ensures
        u32_at(b, pos) == x,
{
    assert((((x & 0xff) as u8) as u32) | (((((x >> 8) & 0xff) as u8) as u32) << 8) | (((((x >> 16)
        & 0xff) as u8) as u32) << 16) | (((((x >> 24) & 0xff) as u8) as u32) << 24) == x)
        by (bit_vector);
}

/// Appends the two little-endian bytes of `x`.
fn push_u16_le(out: &mut Vec<u8>, x: u16)
    ensures
        final(out)@ == old(out)@ + le16(x),
{
    proof {
        assert((x & 0xff) < 256 && ((x >> 8) & 0xff) < 256) by (bit_vector);
    }
    out.push((x & 0xff) as u8);
    out.push(((x >> 8) & 0xff) as u8);
    proof {
        assert(out@ =~= old(out)@ + le16(x));
    }
}

/// Appends the four little-endian bytes of `x`.
fn push_u32_le(out: &mut Vec<u8>, x: u32)
    ensures
        final(out)@ == old(out)@ + le32(x),
{
    proof {
        assert((x & 0xff) < 256 && ((x >> 8) & 0xff) < 256 && ((x >> 16) & 0xff) < 256 && ((x
            >> 24) & 0xff) < 256) by (bit_vector);
    }
    out.push((x & 0xff) as u8);
    out.push(((x >> 8) & 0xff) as u8);
    out.push(((x >> 16) & 0xff) as u8);
    out.push(((x >> 24) & 0xff) as u8);
    proof {
        assert(out@ =~= old(out)@ + le32(x));
    }
}

/// Reads the two little-endian bytes at `pos`.
fn read_u16_le(b: &[u8], pos: usize) -> (x: u16)
    requires
        pos + 2 <= b@.len(),
    ensures
        x == u16_at(b@, pos as int),
{
    (b[pos] as u16) | ((b[pos + 1] as u16) << 8)
}

/// Reads the four little-endian bytes at `pos`.
fn read_u32_le(b: &[u8], pos: usize) -> (x: u32)
    requires
        pos + 4 <= b@.len(),
    ensures
        x == u32_at(b@, pos as int),
{
    (b[pos] as u32) | ((b[pos + 1] as u32) << 8) | ((b[pos + 2] as u32) << 16) | ((b[pos + 3]
        as u32) << 24)
}

/// The format version a serialized index claims. A reader may log a version
/// newer than [`FORMAT_VERSION`] and still read on: the layout is the
/// contract, and an incompatible layout surfaces as a decode error.
pub fn peek_version(bytes: &[u8]) -> (r: Result<u16, AnnError>)
    ensures
        (r is Ok) <==> bytes@.len() >= 2,
        match r {
            Ok(v) => v == u16_at(bytes@, 0),
            Err(e) => e == AnnError::DecodeTruncated,
        },
{
    if bytes.len() < 2 {
        return Err(AnnError::DecodeTruncated);
    }
    Ok(read_u16_le(bytes, 0))
}

/// The coordinate block of one centroid: each coordinate as 4 bytes.
pub open spec fn encode_coords(c: Seq<u32>) -> Seq<u8>
    decreases c.len(),
{
    if c.len() == 0 {
        Seq::empty()
    } else {
        encode_coords(c.drop_last()) + le32(c.last())
    }
}

/// The id block of one cluster: each member id as 4 bytes.
pub open spec fn encode_ids(e: Seq<usize>) -> Seq<u8>
    decreases e.len(),
{
    if e.len() == 0 {
        Seq::empty()
    } else {
        encode_ids(e.drop_last()) + le32(e.last() as u32)
    }
}

/// One cluster record: member count, centroid coordinates, member ids.
pub open spec fn encode_cluster(centroid: Seq<u32>, elements: Seq<usize>) -> Seq<u8> {
    le32(elements.len() as u32) + encode_coords(centroid) + encode_ids(elements)
}

/// The cluster records, in order.
pub open spec fn encode_clusters(cs: Seq<Cluster>) -> Seq<u8>
    decreases cs.len(),
{
    if cs.len() == 0 {
        Seq::empty()
    } else {
        encode_clusters(cs.drop_last()) + encode_cluster(
            cs.last().centroid@,
            cs.last().elements@,
        )
    }
}

/// A whole serialized index: version, metric code, dimension, cluster
/// count, then the cluster records.
pub open spec fn encode_index(metric: MetricType, dim: u32, cs: Seq<Cluster>) -> Seq<u8> {
    le16(FORMAT_VERSION) + seq![metric.spec_code()] + le32(dim) + le32(cs.len() as u32)
        + encode_clusters(cs)
}

/// Serializes the cluster state. The caller promises what the format's
/// `u32` fields force: counts, dimension and ids must fit in 32 bits.
pub fn encode_index_bytes(metric: MetricType, dim: u32, clusters: &Vec<Cluster>) -> (out: Vec<u8>)
    requires
        clusters@.len() <= u32::MAX,
        forall|c: int|
            0 <= c < clusters@.len() ==> (#[trigger] clusters@[c]).elements@.len() <= u32::MAX,
        forall|c: int, e: int|
            0 <= c < clusters@.len() && 0 <= e < clusters@[c].elements@.len() ==> (
            #[trigger] clusters@[c].elements@[e]) <= u32::MAX,
    ensures
        out@ == encode_index(metric, dim, clusters@),
{
    let ghost cs = clusters@;
    let mut out: Vec<u8> = Vec::new();
    push_u16_le(&mut out, FORMAT_VERSION);
    out.push(metric.code());
    push_u32_le(&mut out, dim);
    push_u32_le(&mut out, clusters.len() as u32);
    let ghost header = out@;
    proof {
        assert(header =~= le16(FORMAT_VERSION) + seq![metric.spec_code()] + le32(dim) + le32(
            cs.len() as u32,
        ));
        assert(out@ =~= header + encode_clusters(cs.take(0)));
    }

    let n: usize = clusters.len();
    let mut c: usize = 0;
    while c < n
        invariant
            c <= n,
            n == cs.len(),
            cs == clusters@,
            forall|t: int|
                0 <= t < cs.len() ==> (#[trigger] cs[t]).elements@.len() <= u32::MAX,
            forall|t: int, e: int|
                0 <= t < cs.len() && 0 <= e < cs[t].elements@.len() ==> (
                #[trigger] cs[t].elements@[e]) <= u32::MAX,
            out@ == header + encode_clusters(cs.take(c as int)),
        decreases n - c,
    {
        let elem_count: usize = clusters[c].elements.len();
        push_u32_le(&mut out, elem_count as u32);
        let ghost cluster_start = header + encode_clusters(cs.take(c as int)) + le32(
            elem_count as u32,
        );
        proof {
            assert(out@ =~= cluster_start + encode_coords(cs[c as int].centroid@.take(0)));
        }

        let dlen: usize = clusters[c].centroid.len();
        let mut j: usize = 0;
        while j < dlen
            invariant
                j <= dlen,
                c < n,
                n == cs.len(),
                cs == clusters@,
                dlen == cs[c as int].centroid@.len(),
                out@ == cluster_start + encode_coords(cs[c as int].centroid@.take(j as int)),
            decreases dlen - j,
        {
            let x: u32 = clusters[c].centroid[j];
            push_u32_le(&mut out, x);
            proof {
                assert(cs[c as int].centroid@.take(j + 1).drop_last() =~= cs[
                c as int].centroid@.take(j as int));
                assert(out@ =~= cluster_start + encode_coords(cs[c as int].centroid@.take(j + 1)));
            }
            j = j + 1;
        }
        let ghost ids_start = cluster_start + encode_coords(cs[c as int].centroid@);
        proof {
            assert(cs[c as int].centroid@.take(dlen as int) =~= cs[c as int].centroid@);
            assert(out@ =~= ids_start + encode_ids(cs[c as int].elements@.take(0)));
        }

        let mut e: usize = 0;
        while e < elem_count
            invariant
                e <= elem_count,
                c < n,
                n == cs.len(),
                cs == clusters@,
                elem_count == cs[c as int].elements@.len(),
                forall|t: int|
                    0 <= t < cs[c as int].elements@.len() ==> (
                    #[trigger] cs[c as int].elements@[t]) <= u32::MAX,
                out@ == ids_start + encode_ids(cs[c as int].elements@.take(e as int)),
            decreases elem_count - e,
        {
            let id: usize = clusters[c].elements[e];
            push_u32_le(&mut out, id as u32);
            proof {
                assert(cs[c as int].elements@.take(e + 1).drop_last() =~= cs[
                c as int].elements@.take(e as int));
                assert(out@ =~= ids_start + encode_ids(cs[c as int].elements@.take(e + 1)));
            }
            e = e + 1;
        }
        proof {
            assert(cs[c as int].elements@.take(elem_count as int) =~= cs[c as int].elements@);
            assert(cs.take(c + 1).drop_last() =~= cs.take(c as int));
            assert(cs.take(c + 1).last() == cs[c as int]);
            assert(out@ =~= header + encode_clusters(cs.take(c + 1)));
        }
        c = c + 1;
    }
    proof {
        assert(cs.take(n as int) =~= cs);
    }
    out
}

/// The coordinate block is 4 bytes per coordinate.
proof fn lemma_encode_coords_len(c: Seq<u32>)
    ensures
        encode_coords(c).len() == 4 * c.len(),
    decreases c.len(),
{
    if c.len() > 0 {
        lemma_encode_coords_len(c.drop_last());
    }
}

/// The id block is 4 bytes per member.
proof fn lemma_encode_ids_len(e: Seq<usize>)
    ensures
        encode_ids(e).len() == 4 * e.len(),
    decreases e.len(),
{
    if e.len() > 0 {
        lemma_encode_ids_len(e.drop_last());
    }
}

/// The coordinate block puts coordinate `j` at bytes `4j .. 4j + 4`.
proof fn lemma_encode_coords_byte(c: Seq<u32>, j: int, t: int)
    requires
        0 <= j < c.len(),
        0 <= t < 4,
    ensures
        encode_coords(c).len() == 4 * c.len(),
        encode_coords(c)[4 * j + t] == le32(c[j])[t],
    decreases c.len(),
{
    lemma_encode_coords_len(c);
    if j == c.len() - 1 {
        lemma_encode_coords_len(c.drop_last());
    } else {
        lemma_encode_coords_byte(c.drop_last(), j, t);
    }
}

/// The id block puts member `k` at bytes `4k .. 4k + 4`.
proof fn lemma_encode_ids_byte(e: Seq<usize>, k: int, t: int)
    requires
        0 <= k < e.len(),
        0 <= t < 4,
    ensures
        encode_ids(e).len() == 4 * e.len(),
        encode_ids(e)[4 * k + t] == le32(e[k] as u32)[t],
    decreases e.len(),
{
    lemma_encode_ids_len(e);
    if k == e.len() - 1 {
        lemma_encode_ids_len(e.drop_last());
    } else {
        lemma_encode_ids_byte(e.drop_last(), k, t);
    }
}

/// The cluster records can be peeled off the front as well.
proof fn lemma_encode_clusters_first(cs: Seq<Cluster>)
    requires
        cs.len() > 0,
    ensures
        encode_clusters(cs) == encode_cluster(cs[0].centroid@, cs[0].elements@) + encode_clusters(
            cs.skip(1),
        ),
    decreases cs.len(),
{
    if cs.len() == 1 {
        assert(cs.drop_last().len() == 0);
        assert(cs.skip(1).len() == 0);
        assert(encode_cluster(cs[0].centroid@, cs[0].elements@) + encode_clusters(cs.skip(1))
            =~= encode_clusters(cs.drop_last()) + encode_cluster(
            cs.last().centroid@,
            cs.last().elements@,
        ));
    } else {
        lemma_encode_clusters_first(cs.drop_last());
        assert(cs.drop_last()[0] == cs[0]);
        assert(cs.drop_last().skip(1) =~= cs.skip(1).drop_last());
        assert(cs.skip(1).last() == cs.last());
        assert(encode_clusters(cs) == (encode_cluster(cs[0].centroid@, cs[0].elements@)
            + encode_clusters(cs.skip(1).drop_last())) + encode_cluster(
            cs.last().centroid@,
            cs.last().elements@,
        ));
        assert((encode_cluster(cs[0].centroid@, cs[0].elements@) + encode_clusters(
            cs.skip(1).drop_last(),
        )) + encode_cluster(cs.last().centroid@, cs.last().elements@) =~= encode_cluster(
            cs[0].centroid@,
            cs[0].elements@,
        ) + (encode_clusters(cs.skip(1).drop_last()) + encode_cluster(
            cs.skip(1).last().centroid@,
            cs.skip(1).last().elements@,
        )));
    }
}

/// The views of the clusters: centroid coordinates and member ids.
pub open spec fn cluster_models(cs: Seq<Cluster>) -> Seq<(Seq<u32>, Seq<usize>)> {
    Seq::new(cs.len(), |i: int| (cs[i].centroid@, cs[i].elements@))
}

/// Reads `count` cluster records of dimension `dim` starting at `pos`:
/// the decoded models and the position after them, or nothing when the
/// bytes end before the records do.
pub open spec fn decode_clusters(b: Seq<u8>, pos: int, dim: int, count: int) -> Option<
    (Seq<(Seq<u32>, Seq<usize>)>, int),
>
    decreases count,
{
    if count <= 0 {
        Option::Some((Seq::empty(), pos))
    } else if pos + 4 > b.len() {
        Option::None
    } else {
        let e = u32_at(b, pos) as int;
        let coords_end = pos + 4 + 4 * dim;
        let ids_end = coords_end + 4 * e;
        if ids_end > b.len() {
            Option::None
        } else {
            let centroid = Seq::new(dim as nat, |j: int| u32_at(b, pos + 4 + 4 * j));
            let elements = Seq::new(e as nat, |k: int| u32_at(b, coords_end + 4 * k) as usize);
            match decode_clusters(b, ids_end, dim, count - 1) {
                Option::None => Option::None,
                Option::Some(rest) => Option::Some(
                    (seq![(centroid, elements)] + rest.0, rest.1),
                ),
            }
        }
    }
}

/// Reads a whole serialized index: its format version, metric, dimension
/// and cluster models, or nothing when the bytes end too early. Bytes after
/// the last cluster record are ignored.
pub open spec fn decode_index(b: Seq<u8>) -> Option<
    (u16, MetricType, u32, Seq<(Seq<u32>, Seq<usize>)>),
> {
    if b.len() < 11 {
        Option::None
    } else {
        let version = u16_at(b, 0);
        let metric = MetricType::from_spec(b[2]);
        let dim = u32_at(b, 3);
        let count = u32_at(b, 7);
        match decode_clusters(b, 11, dim as int, count as int) {
            Option::None => Option::None,
            Option::Some(rest) => Option::Some((version, metric, dim, rest.0)),
        }
    }
}

/// The header fields a successful read of the first 11 bytes pins down.
pub open spec fn header_read(
    b: Seq<u8>,
    version: u16,
    metric: MetricType,
    dim32: u32,
    count32: u32,
) -> bool {
    &&& b.len() >= 11
    &&& version == u16_at(b, 0)
    &&& metric == MetricType::from_spec(b[2])
    &&& dim32 == u32_at(b, 3)
    &&& count32 == u32_at(b, 7)
}

/// Decoding reads back exactly the cluster records the encoder wrote,
/// wherever they sit in a larger byte sequence.
proof fn lemma_decode_clusters_of_encoding(b: Seq<u8>, pos: int, dim: u32, cs: Seq<Cluster>)
    requires
        0 <= pos,
        pos + encode_clusters(cs).len() <= b.len(),
        b.subrange(pos, pos + encode_clusters(cs).len() as int) == encode_clusters(cs),
        forall|c: int|
            0 <= c < cs.len() ==> (#[trigger] cs[c]).centroid@.len() == dim,
        forall|c: int|
            0 <= c < cs.len() ==> (#[trigger] cs[c]).elements@.len() <= u32::MAX,
        forall|c: int, e: int|
            0 <= c < cs.len() && 0 <= e < cs[c].elements@.len() ==> (
            #[trigger] cs[c].elements@[e]) <= u32::MAX,
    ensures
        decode_clusters(b, pos, dim as int, cs.len() as int) == Option::Some(
            (cluster_models(cs), pos + encode_clusters(cs).len()),
        ),
    decreases cs.len(),
{
    if cs.len() == 0 {
        assert(cluster_models(cs) =~= Seq::<(Seq<u32>, Seq<usize>)>::empty());
    } else {
        lemma_encode_clusters_first(cs);
        let centroid = cs[0].centroid@;
        let elements = cs[0].elements@;
        let e_len = elements.len() as int;
        let enc0 = encode_cluster(centroid, elements);
        let rest_enc = encode_clusters(cs.skip(1));
        let all = encode_clusters(cs);
        lemma_encode_coords_len(centroid);
        lemma_encode_ids_len(elements);
        assert(enc0.len() == 4 + 4 * (dim as int) + 4 * e_len);
        assert(forall|x: int| 0 <= x < all.len() ==> b[pos + x] == #[trigger] all[x]) by {
            assert(forall|x: int|
                0 <= x < all.len() ==> b.subrange(pos, pos + all.len() as int)[x] == #[trigger] all[x]);
        }
        // The member count sits first.
        assert forall|t: int| 0 <= t < 4 implies #[trigger] b[pos + t] == le32(e_len as u32)[t] by {
            assert(all[t] == enc0[t]);
        }
        lemma_le32_at(b, pos, e_len as u32);
        assert(u32_at(b, pos) as int == e_len);
        let coords_end = pos + 4 + 4 * (dim as int);
        let ids_end = coords_end + 4 * e_len;
        assert(ids_end == pos + enc0.len());
        assert(ids_end <= b.len());
        // The centroid coordinates follow, 4 bytes each.
        assert forall|j: int| 0 <= j < dim as int implies u32_at(b, pos + 4 + 4 * j)
            == centroid[j] by {
            assert forall|t: int| 0 <= t < 4 implies #[trigger] b[pos + 4 + 4 * j + t] == le32(
                centroid[j],
            )[t] by {
                lemma_encode_coords_byte(centroid, j, t);
                assert(all[4 + 4 * j + t] == enc0[4 + 4 * j + t]);
                assert(enc0[4 + 4 * j + t] == encode_coords(centroid)[4 * j + t]);
            }
            lemma_le32_at(b, pos + 4 + 4 * j, centroid[j]);
        }
        assert(Seq::new(dim as nat, |j: int| u32_at(b, pos + 4 + 4 * j)) =~= centroid);
        // Then the member ids.
        assert forall|k: int| 0 <= k < e_len implies u32_at(b, coords_end + 4 * k) as usize
            == elements[k] by {
            assert forall|t: int| 0 <= t < 4 implies #[trigger] b[coords_end + 4 * k + t] == le32(
                elements[k] as u32,
            )[t] by {
                lemma_encode_ids_byte(elements, k, t);
                assert(all[4 + 4 * (dim as int) + 4 * k + t] == enc0[4 + 4 * (dim as int) + 4 * k
                    + t]);
                assert(enc0[4 + 4 * (dim as int) + 4 * k + t] == encode_ids(elements)[4 * k + t]);
            }
            lemma_le32_at(b, coords_end + 4 * k, elements[k] as u32);
        }
        assert(Seq::new(e_len as nat, |k: int| u32_at(b, coords_end + 4 * k) as usize)
            =~= elements);
        // The remaining records decode by induction.
        assert(b.subrange(ids_end, ids_end + rest_enc.len() as int) =~= rest_enc) by {
            assert forall|x: int| 0 <= x < rest_enc.len() implies b.subrange(
                ids_end,
                ids_end + rest_enc.len() as int,
            )[x] == rest_enc[x] by {
                assert(b[ids_end + x] == all[enc0.len() + x]);
                assert(all[enc0.len() + x] == rest_enc[x]);
            }
        }
        assert(forall|c: int|
            0 <= c < cs.skip(1).len() ==> (#[trigger] cs.skip(1)[c]) == cs[c + 1]);
        lemma_decode_clusters_of_encoding(b, ids_end, dim, cs.skip(1));
        assert(seq![(centroid, elements)] + cluster_models(cs.skip(1)) =~= cluster_models(cs));
        assert(ids_end + rest_enc.len() == pos + all.len());
    }
}

/// Every centroid the decoder yields has the dimension the header declared.
pub proof fn lemma_decode_models_dims(
    b: Seq<u8>,
    pos: int,
    dim: int,
    count: int,
    models: Seq<(Seq<u32>, Seq<usize>)>,
)
    requires
        dim >= 0,
        decode_clusters(b, pos, dim, count) is Some,
        models == decode_clusters(b, pos, dim, count)->Some_0.0,
    ensures
        forall|c: int| 0 <= c < models.len() ==> (#[trigger] models[c]).0.len() == dim,
    decreases count,
{
    if count <= 0 {
    } else {
        let e = u32_at(b, pos) as int;
        let coords_end = pos + 4 + 4 * dim;
        let rest = decode_clusters(b, coords_end + 4 * e, dim, count - 1);
        assert(rest is Some);
        lemma_decode_models_dims(b, coords_end + 4 * e, dim, count - 1, rest->Some_0.0);
        let first = (
            Seq::new(dim as nat, |j: int| u32_at(b, pos + 4 + 4 * j)),
            Seq::new(e as nat, |k: int| u32_at(b, coords_end + 4 * k) as usize),
        );
        assert(models == seq![first] + rest->Some_0.0);
        assert forall|c: int| 0 <= c < models.len() implies (#[trigger] models[c]).0.len()
            == dim by {
            if c == 0 {
                assert(models[0] == first);
            } else {
                assert(models[c] == rest->Some_0.0[c - 1]);
            }
        }
    }
}

/// Round trip: decoding what the encoder wrote reproduces the metric, the
/// dimension, and every cluster's centroid and member list, in order. The
/// bounds are those the format's 32-bit fields force.
pub proof fn lemma_encode_decode(metric: MetricType, dim: u32, cs: Seq<Cluster>)
    requires
        cs.len() <= u32::MAX,
        forall|c: int|
            0 <= c < cs.len() ==> (#[trigger] cs[c]).centroid@.len() == dim,
        forall|c: int|
            0 <= c < cs.len() ==> (#[trigger] cs[c]).elements@.len() <= u32::MAX,
        forall|c: int, e: int|
            0 <= c < cs.len() && 0 <= e < cs[c].elements@.len() ==> (
            #[trigger] cs[c].elements@[e]) <= u32::MAX,
    ensures
        decode_index(encode_index(metric, dim, cs)) == Option::Some(
            (FORMAT_VERSION, metric, dim, cluster_models(cs)),
        ),
{
    let b = encode_index(metric, dim, cs);
    let body = encode_clusters(cs);
    assert(b.len() == 11 + body.len());
    assert forall|t: int| 0 <= t < 2 implies #[trigger] b[t] == le16(FORMAT_VERSION)[t] by {}
    lemma_le16_at(b, 0, FORMAT_VERSION);
    assert(b[2] == metric.spec_code());
    assert(MetricType::from_spec(metric.spec_code()) == metric);
    assert forall|t: int| 0 <= t < 4 implies #[trigger] b[3 + t] == le32(dim)[t] by {}
    lemma_le32_at(b, 3, dim);
    assert forall|t: int| 0 <= t < 4 implies #[trigger] b[7 + t] == le32(cs.len() as u32)[t] by {}
    lemma_le32_at(b, 7, cs.len() as u32);
    assert(u32_at(b, 7) as int == cs.len());
    assert(b.subrange(11, 11 + body.len() as int) =~= body) by {
        assert(forall|x: int|
            0 <= x < body.len() ==> b.subrange(11, 11 + body.len() as int)[x] == #[trigger] body[x]);
    }
    lemma_decode_clusters_of_encoding(b, 11, dim, cs);
}

/// Parses a serialized index from a byte slice; a truncated record is a
/// decode error and yields no partial state.
pub fn decode_index_bytes(bytes: &[u8]) -> (r: Result<
    (u16, MetricType, u32, Vec<Cluster>),
    AnnError,
>)
    ensures
        (r is Ok) <==> (decode_index(bytes@) is Some),
        match r {
            Ok(t) => decode_index(bytes@) == Option::Some((t.0, t.1, t.2, cluster_models(t.3@))),
            Err(e) => e == AnnError::DecodeTruncated,
        },
{
    let blen: usize = bytes.len();
    if blen < 11 {
        return Err(AnnError::DecodeTruncated);
    }
    let version: u16 = read_u16_le(bytes, 0);
    let metric: MetricType = MetricType::from(bytes[2]);
    let dim32: u32 = read_u32_le(bytes, 3);
    let count32: u32 = read_u32_le(bytes, 7);
    let dim: usize = dim32 as usize;
    let count: usize = count32 as usize;
    let ghost b = bytes@;
    let ghost di = dim32 as int;

    let mut clusters: Vec<Cluster> = Vec::new();
    let mut pos: usize = 11;
    let mut c: usize = 0;
    while c < count
        invariant
            c <= count,
            11 <= pos <= blen,
            blen == b.len(),
            b == bytes@,
            di == dim32 as int,
            dim == dim32 as int,
            count == count32 as int,
            clusters@.len() == c,
            header_read(b, version, metric, dim32, count32),
            match decode_clusters(b, pos as int, di, (count - c) as int) {
                Option::None => decode_clusters(b, 11, di, count32 as int) is None,
                Option::Some(rest) => decode_clusters(b, 11, di, count32 as int)
                    == Option::Some((cluster_models(clusters@) + rest.0, rest.1)),
            },
        decreases count - c,
    {
        let ghost models0 = cluster_models(clusters@);
        let ghost cluster_pos = pos as int;
        let ghost remaining = (count - c) as int;
        if blen - pos < 4 {
            proof {
                assert(decode_clusters(b, cluster_pos, di, remaining) is None);
                assert(decode_index(b) is None);
            }
            return Err(AnnError::DecodeTruncated);
        }
        let e32: u32 = read_u32_le(bytes, pos);
        let elem_count: usize = e32 as usize;
        pos = pos + 4;
        let ghost ids_end = cluster_pos + 4 + 4 * di + 4 * (e32 as int);

        let mut centroid: Vec<u32> = Vec::new();
        let mut j: usize = 0;
        while j < dim
            invariant
                j <= dim,
                blen == b.len(),
                b == bytes@,
                dim == di,
                elem_count == e32 as int,
                remaining >= 1,
                header_read(b, version, metric, dim32, count32),
                di == dim32 as int,
                ids_end == cluster_pos + 4 + 4 * di + 4 * (e32 as int),
                u32_at(b, cluster_pos) == e32,
                (decode_clusters(b, cluster_pos, di, remaining) is None) ==> (decode_clusters(
                    b,
                    11,
                    di,
                    count32 as int,
                ) is None),
                pos as int == cluster_pos + 4 + 4 * j,
                11 <= cluster_pos,
                cluster_pos + 4 <= blen,
                pos <= blen,
                centroid@.len() == j,
                forall|t: int|
                    0 <= t < j ==> (#[trigger] centroid@[t]) == u32_at(b, cluster_pos + 4 + 4 * t),
            decreases dim - j,
        {
            if blen - pos < 4 {
                proof {
                    assert(4 * (j + 1) <= 4 * di);
                    assert(cluster_pos + 4 + 4 * di > b.len());
                    assert(4 * (e32 as int) >= 0);
                    assert(decode_clusters(b, cluster_pos, di, remaining) is None);
                    assert(decode_index(b) is None);
                }
                return Err(AnnError::DecodeTruncated);
            }
            centroid.push(read_u32_le(bytes, pos));
            pos = pos + 4;
            j = j + 1;
        }

        let mut elements: Vec<usize> = Vec::new();
        let mut k: usize = 0;
        while k < elem_count
            invariant
                k <= elem_count,
                elem_count == e32 as int,
                blen == b.len(),
                b == bytes@,
                remaining >= 1,
                header_read(b, version, metric, dim32, count32),
                di == dim32 as int,
                ids_end == cluster_pos + 4 + 4 * di + 4 * (e32 as int),
                u32_at(b, cluster_pos) == e32,
                (decode_clusters(b, cluster_pos, di, remaining) is None) ==> (decode_clusters(
                    b,
                    11,
                    di,
                    count32 as int,
                ) is None),
                pos as int == cluster_pos + 4 + 4 * di + 4 * k,
                11 <= cluster_pos,
                cluster_pos + 4 <= blen,
                pos <= blen,
                elements@.len() == k,
                forall|t: int|
                    0 <= t < k ==> (#[trigger] elements@[t]) == u32_at(
                        b,
                        cluster_pos + 4 + 4 * di + 4 * t,
                    ) as usize,
            decreases elem_count - k,
        {
            if blen - pos < 4 {
                proof {
                    assert(4 * (k + 1) <= 4 * (e32 as int));
                    assert(ids_end > b.len());
                    assert(decode_clusters(b, cluster_pos, di, remaining) is None);
                    assert(decode_index(b) is None);
                }
                return Err(AnnError::DecodeTruncated);
            }
            let id32: u32 = read_u32_le(bytes, pos);
            elements.push(id32 as usize);
            pos = pos + 4;
            k = k + 1;
        }

        proof {
            assert(pos as int == ids_end);
            assert(centroid@ =~= Seq::new(di as nat, |t: int| u32_at(b, cluster_pos + 4 + 4 * t)));
            assert(elements@ =~= Seq::new(
                e32 as nat,
                |t: int| u32_at(b, cluster_pos + 4 + 4 * di + 4 * t) as usize,
            ));
        }
        let cluster = Cluster { centroid, elements };
        let ghost model = (cluster.centroid@, cluster.elements@);
        clusters.push(cluster);
        proof {
            assert(decode_clusters(b, cluster_pos, di, remaining) == (match decode_clusters(
                b,
                ids_end,
                di,
                remaining - 1,
            ) {
                Option::None => Option::None::<(Seq<(Seq<u32>, Seq<usize>)>, int)>,
                Option::Some(rest) => Option::Some((seq![model] + rest.0, rest.1)),
            }));
            assert(cluster_models(clusters@) =~= models0 + seq![model]);
            match decode_clusters(b, ids_end, di, remaining - 1) {
                Option::None => {
                }
                Option::Some(rest) => {
                    assert((models0 + seq![model]) + rest.0 =~= models0 + (seq![model] + rest.0));
                }
            }
        }
        c = c + 1;
    }
    proof {
        let rest = decode_clusters(b, pos as int, di, 0);
        assert(rest == Option::Some((Seq::<(Seq<u32>, Seq<usize>)>::empty(), pos as int)));
        assert(cluster_models(clusters@) + Seq::<(Seq<u32>, Seq<usize>)>::empty() =~= cluster_models(
            clusters@,
        ));
        assert(decode_index(b) == Option::Some((version, metric, dim32, cluster_models(clusters@))));
    }
    Ok((version, metric, dim32, clusters))
}

} // verus!
