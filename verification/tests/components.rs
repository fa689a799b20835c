use anna::accessor::MemoryVectorAccessor;
use anna::index::cluster::Cluster;
use anna::index::utils::{cluster_order, get_nearest_vector, get_topk};
use anna::metric::{l2_distance, MetricType};
use anna::VectorAccessor;

#[test]
fn test_l2_distance_exact() {
    assert_eq!(l2_distance(&[1, 2, 3], &[4, 6, 3]), 25);
    assert_eq!(l2_distance(&[], &[]), 0);
    assert_eq!(l2_distance(&[7], &[7]), 0);
    // The farthest two coordinates can be.
    assert_eq!(
        l2_distance(&[0], &[u32::MAX]),
        (u32::MAX as u128) * (u32::MAX as u128)
    );
}

#[test]
fn test_metric_distance_and_codes() {
    let m = MetricType::L2;
    assert_eq!(m.distance(&[1, 1], &[2, 3]), 5);
    assert_eq!(MetricType::L2.code(), 1);
    assert_eq!(MetricType::Untrained.code(), 0);
    assert_eq!(MetricType::from(1), MetricType::L2);
    assert_eq!(MetricType::from(0), MetricType::Untrained);
    assert_eq!(MetricType::from(200), MetricType::Untrained);
}

#[test]
fn test_memory_accessor() {
    let a = MemoryVectorAccessor::new(3, vec![1, 2, 3, 4, 5, 6, 7]);
    assert_eq!(a.dim(), 3);
    // The trailing fragment `7` is not a stored vector.
    assert_eq!(a.len(), 2);
    assert_eq!(a.get(0), &[1, 2, 3]);
    assert_eq!(a.get(1), &[4, 5, 6]);
}

#[test]
fn test_cluster_add_len_split() {
    let mut c = Cluster::new(2);
    assert_eq!(c.centroid, vec![0, 0]);
    assert_eq!(c.len(), 0);
    for id in [10usize, 11, 12, 13, 14] {
        c.add(id);
    }
    assert_eq!(c.len(), 5);
    let sibling = c.split();
    // The last half, rounded down, moves out in insertion order.
    assert_eq!(c.elements, vec![10, 11, 12]);
    assert_eq!(sibling.elements, vec![13, 14]);
    assert_eq!(sibling.centroid, vec![0, 0]);
}

#[test]
fn test_calc_centroid_floor_mean_and_wcss() {
    let accessor = MemoryVectorAccessor::new(2, vec![0, 10, 1, 20, 3, 40]);
    let mut c = Cluster::new(2);
    c.add(0);
    c.add(1);
    c.add(2);
    let wcss = c.calc_centroid(&accessor);
    // Means: (0 + 1 + 3) / 3 = 1 (floor of 4/3), (10 + 20 + 40) / 3 = 23.
    assert_eq!(c.centroid, vec![1, 23]);
    // Squared distances to (1, 23): (1 + 169) + (0 + 9) + (4 + 289).
    assert_eq!(wcss, 170 + 9 + 293);
    assert_eq!(c.elements, vec![0, 1, 2]);
}

#[test]
fn test_get_nearest_vector_first_on_ties() {
    let clusters = vec![
        Cluster::with_centroid(vec![10]),
        Cluster::with_centroid(vec![0]),
        Cluster::with_centroid(vec![10]),
    ];
    let (idx, d) = get_nearest_vector(&[9], &clusters, MetricType::L2);
    assert_eq!((idx, d), (0, 1));
    let (idx, d) = get_nearest_vector(&[1], &clusters, MetricType::L2);
    assert_eq!((idx, d), (1, 1));
}

#[test]
fn test_cluster_order_stable_ties() {
    let clusters = vec![
        Cluster::with_centroid(vec![100]),
        Cluster::with_centroid(vec![0]),
        Cluster::with_centroid(vec![100]),
        Cluster::with_centroid(vec![7]),
    ];
    let order = cluster_order(&clusters, &[6], MetricType::L2);
    // Distances: 8836, 36, 8836, 1; equal distances keep original order.
    assert_eq!(order, vec![3, 1, 0, 2]);
}

#[test]
fn test_get_topk_brute_force() {
    let accessor = MemoryVectorAccessor::new(1, vec![5, 100, 7, 4, 50]);
    let topk = get_topk(3, &[6], &accessor, MetricType::L2);
    let mut pairs: Vec<(usize, u128)> = topk.iter().map(|e| (e.id, e.distance)).collect();
    pairs.sort();
    // Closest three to 6: ids 0 (distance 1), 2 (distance 1), 3 (distance 4).
    assert_eq!(pairs, vec![(0, 1), (2, 1), (3, 4)]);

    // Asking for more than stored returns everything.
    let all = get_topk(9, &[6], &accessor, MetricType::L2);
    assert_eq!(all.len(), 5);
}
