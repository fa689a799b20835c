use anna::accessor::MemoryVectorAccessor;
use anna::index::cluster::Cluster;
use anna::index::codec::{decode_index_bytes, peek_version, FORMAT_VERSION};
use anna::index::ivf::Ivf;
use anna::metric::MetricType;
use anna::AnnError;

/// A hand-built one-cluster index over two stored vectors of dimension 2.
fn tiny_index() -> Ivf<MemoryVectorAccessor> {
    let accessor = MemoryVectorAccessor::new(2, vec![1, 2, 3, 4]);
    let mut cluster = Cluster::with_centroid(vec![1, 2]);
    cluster.add(0);
    cluster.add(1);
    Ivf {
        vectors: accessor,
        clusters: vec![cluster],
        metric_type: MetricType::L2,
    }
}

#[test]
fn test_serialize_exact_bytes() {
    let ivf = tiny_index();
    let bytes = ivf.serialize();
    let expected: Vec<u8> = vec![
        1, 0, // format version
        1, // metric code: L2
        2, 0, 0, 0, // dimension
        1, 0, 0, 0, // cluster count
        2, 0, 0, 0, // member count of cluster 0
        1, 0, 0, 0, 2, 0, 0, 0, // centroid coordinates
        0, 0, 0, 0, 1, 0, 0, 0, // member ids
    ];
    assert_eq!(bytes, expected);
}

#[test]
fn test_decode_reproduces_clusters() {
    let ivf = tiny_index();
    let bytes = ivf.serialize();
    let (version, metric, dim, clusters) = decode_index_bytes(&bytes).unwrap();
    assert_eq!(version, FORMAT_VERSION);
    assert_eq!(metric, MetricType::L2);
    assert_eq!(dim, 2);
    assert_eq!(clusters.len(), 1);
    assert_eq!(clusters[0].centroid, vec![1, 2]);
    assert_eq!(clusters[0].elements, vec![0, 1]);
}

#[test]
fn test_decode_ignores_trailing_bytes() {
    let ivf = tiny_index();
    let mut bytes = ivf.serialize();
    bytes.push(0xab);
    bytes.push(0xcd);
    let (_, _, _, clusters) = decode_index_bytes(&bytes).unwrap();
    assert_eq!(clusters.len(), 1);
}

#[test]
fn test_decode_truncated_fails() {
    let ivf = tiny_index();
    let bytes = ivf.serialize();
    for cut in 0..bytes.len() {
        let r = decode_index_bytes(&bytes[..cut]);
        assert_eq!(r.err(), Some(AnnError::DecodeTruncated), "cut at {}", cut);
    }
}

#[test]
fn test_deserialize_rejects_foreign_ids() {
    // A record whose member ids do not all address stored vectors.
    let donor = {
        let accessor = MemoryVectorAccessor::new(2, vec![1, 2, 3, 4, 5, 6]);
        let mut cluster = Cluster::with_centroid(vec![1, 2]);
        cluster.add(0);
        cluster.add(2);
        Ivf {
            vectors: accessor,
            clusters: vec![cluster],
            metric_type: MetricType::L2,
        }
    };
    let bytes = donor.serialize();
    // Same dimension, but only two stored vectors: id 2 is foreign.
    let accessor = MemoryVectorAccessor::new(2, vec![1, 2, 3, 4]);
    let mut ivf = Ivf::new(accessor);
    assert_eq!(ivf.deserialize(&bytes), Err(AnnError::DecodeInvalid));
    assert_eq!(ivf.clusters.len(), 0);
}

#[test]
fn test_deserialize_rejects_duplicate_ids() {
    let donor = {
        let accessor = MemoryVectorAccessor::new(2, vec![1, 2, 3, 4]);
        let mut c0 = Cluster::with_centroid(vec![1, 2]);
        c0.add(0);
        let mut c1 = Cluster::with_centroid(vec![3, 4]);
        c1.add(1);
        c1.add(0);
        Ivf {
            vectors: accessor,
            clusters: vec![c0, c1],
            metric_type: MetricType::L2,
        }
    };
    let bytes = donor.serialize();
    let accessor = MemoryVectorAccessor::new(2, vec![1, 2, 3, 4]);
    let mut ivf = Ivf::new(accessor);
    assert_eq!(ivf.deserialize(&bytes), Err(AnnError::DecodeInvalid));
}

#[test]
fn test_deserialize_tolerates_newer_version() {
    // A numerically newer version with the same layout is read best-effort.
    let ivf = tiny_index();
    let mut bytes = ivf.serialize();
    bytes[0] = 9;
    bytes[1] = 0;
    assert_eq!(peek_version(&bytes), Ok(9));
    let accessor = MemoryVectorAccessor::new(2, vec![1, 2, 3, 4]);
    let mut loaded = Ivf::new(accessor);
    assert_eq!(loaded.deserialize(&bytes), Ok(()));
    assert_eq!(loaded.clusters.len(), 1);
    assert_eq!(loaded.metric_type, MetricType::L2);
}

#[test]
fn test_peek_version() {
    assert_eq!(peek_version(&[]), Err(AnnError::DecodeTruncated));
    assert_eq!(peek_version(&[7]), Err(AnnError::DecodeTruncated));
    assert_eq!(peek_version(&[7, 1]), Ok(263));
}

#[test]
fn test_deserialize_decodes_untrained_metric_code() {
    // An unknown metric code falls back to the untrained sentinel.
    let ivf = tiny_index();
    let mut bytes = ivf.serialize();
    bytes[2] = 42;
    let (_, metric, _, _) = decode_index_bytes(&bytes).unwrap();
    assert_eq!(metric, MetricType::Untrained);
}
