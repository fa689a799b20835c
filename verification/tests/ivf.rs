use anna::accessor::MemoryVectorAccessor;
use anna::index::ivf::Ivf;
use anna::metric::MetricType;
use anna::{AnnError, SearchOption, TrainOption, VectorAccessor};
use roaring::RoaringBitmap;

const DIM: usize = 32;
const CLUSTER_NUM: usize = 32;
const DATASET_SIZE: usize = CLUSTER_NUM * CLUSTER_NUM;

/// `n` vectors of dimension `dim` drawn from `cluster_num` well-separated
/// seed vectors, row `i` being a copy of seed `i % cluster_num`.
fn gen_vectors(n: usize, dim: usize, cluster_num: usize) -> MemoryVectorAccessor {
    let mut flat: Vec<u32> = Vec::with_capacity(n * dim);
    for i in 0..n {
        let group = (i % cluster_num) as u32;
        for j in 0..dim {
            flat.push((group + 1) * 100_000 + (group * 31 + (j as u32) * 7) % 50);
        }
    }
    MemoryVectorAccessor::new(dim, flat)
}

fn query_of(accessor_row: &[u32]) -> Vec<u32> {
    accessor_row.to_vec()
}

#[test]
fn test_ivf() {
    let accessor = gen_vectors(DATASET_SIZE, DIM, CLUSTER_NUM);
    let queries: Vec<Vec<u32>> = (0..DATASET_SIZE)
        .map(|i| query_of(accessor.get(i)))
        .collect();
    let mut ivf = Ivf::new(accessor);

    let option = TrainOption {
        iteration_num: None,
        nlist: CLUSTER_NUM,
        metric_type: MetricType::L2,
    };
    ivf.train(&option);

    let option = SearchOption {
        nprobe: CLUSTER_NUM / 2,
        topk: CLUSTER_NUM + 1,
    };

    let bitmap = RoaringBitmap::new();
    for query in &queries {
        let result = ivf.search(query, &bitmap, &option).unwrap();
        assert_eq!(
            result.len(),
            option.topk,
            "failed to search, cluster_num={}",
            ivf.clusters.len()
        );

        let mut close_count = 0;
        for id in &result {
            let distance = ivf.metric_type.distance(query, ivf.vectors.get(*id));
            if distance == 0 {
                close_count += 1;
            }
        }
        assert_eq!(close_count, CLUSTER_NUM, "result: {:?}", result);
    }
}

#[test]
fn test_ivf_serde() {
    let accessor = gen_vectors(DATASET_SIZE, DIM, CLUSTER_NUM);
    let queries: Vec<Vec<u32>> = (0..DATASET_SIZE)
        .map(|i| query_of(accessor.get(i)))
        .collect();
    let mut ivf = Ivf::new(accessor);

    let option = TrainOption {
        iteration_num: None,
        nlist: CLUSTER_NUM,
        metric_type: MetricType::L2,
    };
    ivf.train(&option);

    let bytes = ivf.serialize();

    let accessor = gen_vectors(DATASET_SIZE, DIM, CLUSTER_NUM);
    let mut ivf = Ivf::new(accessor);
    ivf.deserialize(&bytes).unwrap();

    assert_eq!(ivf.metric_type, MetricType::L2);
    assert_eq!(ivf.clusters.len(), option.nlist);

    let option = SearchOption {
        nprobe: CLUSTER_NUM / 2,
        topk: CLUSTER_NUM + 1,
    };

    let bitmap = RoaringBitmap::new();
    for query in &queries {
        let result = ivf.search(query, &bitmap, &option).unwrap();
        assert_eq!(
            result.len(),
            option.topk,
            "failed to search, cluster_num={}",
            ivf.clusters.len()
        );

        let mut close_count = 0;
        for id in &result {
            let distance = ivf.metric_type.distance(query, ivf.vectors.get(*id));
            if distance == 0 {
                close_count += 1;
            }
        }
        assert_eq!(close_count, CLUSTER_NUM, "result: {:?}", result);
    }
}

#[test]
fn test_search_recall_with_iteration_budget() {
    // A dataset of well-separated duplicate groups; with a generous
    // iteration budget every seed query must find all of its duplicates.
    let accessor = gen_vectors(DATASET_SIZE, DIM, CLUSTER_NUM);
    let queries: Vec<Vec<u32>> = (0..CLUSTER_NUM).map(|i| query_of(accessor.get(i))).collect();
    let mut ivf = Ivf::new(accessor);

    let option = TrainOption {
        iteration_num: Some(100),
        nlist: CLUSTER_NUM,
        metric_type: MetricType::L2,
    };
    ivf.train(&option);
    assert_eq!(ivf.clusters.len(), CLUSTER_NUM);

    let option = SearchOption {
        nprobe: 16,
        topk: 33,
    };
    let bitmap = RoaringBitmap::new();
    for query in &queries {
        let result = ivf.search(query, &bitmap, &option).unwrap();
        assert_eq!(result.len(), 33);
        let zero_hits = result
            .iter()
            .filter(|id| ivf.metric_type.distance(query, ivf.vectors.get(**id)) == 0)
            .count();
        assert_eq!(zero_hits, 32);
    }
}

#[test]
fn test_train_cluster_count() {
    // Exactly nlist clusters come out of training, even though random
    // seeding may start with duplicate centroids that empty some clusters.
    for nlist in [1usize, 2, 5, 16] {
        let accessor = gen_vectors(64, 4, 4);
        let mut ivf = Ivf::new(accessor);
        ivf.train(&TrainOption {
            iteration_num: Some(3),
            nlist,
            metric_type: MetricType::L2,
        });
        assert_eq!(ivf.clusters.len(), nlist);
        for cluster in &ivf.clusters {
            assert!(cluster.len() >= 1);
        }
        let total: usize = ivf.clusters.iter().map(|c| c.elements.len()).sum();
        assert_eq!(total, 64);
    }
}

#[test]
fn test_search_untrained_fails() {
    let accessor = gen_vectors(8, 2, 2);
    let ivf = Ivf::new(accessor);
    let bitmap = RoaringBitmap::new();
    let r = ivf.search(
        &[0, 0],
        &bitmap,
        &SearchOption { nprobe: 1, topk: 1 },
    );
    assert_eq!(r, Err(AnnError::Untrained));
}

#[test]
fn test_search_dimension_mismatch_fails() {
    let accessor = gen_vectors(8, 2, 2);
    let mut ivf = Ivf::new(accessor);
    ivf.train(&TrainOption {
        iteration_num: None,
        nlist: 2,
        metric_type: MetricType::L2,
    });
    let bitmap = RoaringBitmap::new();
    let r = ivf.search(
        &[1, 2, 3],
        &bitmap,
        &SearchOption { nprobe: 1, topk: 1 },
    );
    assert_eq!(r, Err(AnnError::DimensionMismatch));
    let r = ivf.search(&[1], &bitmap, &SearchOption { nprobe: 1, topk: 1 });
    assert_eq!(r, Err(AnnError::DimensionMismatch));
}

#[test]
fn test_search_respects_deletions() {
    // Four vectors on a line, two tight pairs.
    let accessor = MemoryVectorAccessor::new(1, vec![0, 1, 1000, 1001]);
    let mut ivf = Ivf::new(accessor);
    ivf.train(&TrainOption {
        iteration_num: Some(10),
        nlist: 2,
        metric_type: MetricType::L2,
    });

    let mut bitmap = RoaringBitmap::new();
    bitmap.insert(0);
    bitmap.insert(2);
    let result = ivf
        .search(&[0], &bitmap, &SearchOption { nprobe: 2, topk: 4 })
        .unwrap();
    assert_eq!(result.len(), 2);
    assert!(!result.contains(&0));
    assert!(!result.contains(&2));
    assert!(result.contains(&1));
    assert!(result.contains(&3));
}

#[test]
fn test_search_result_size_bounded() {
    let accessor = MemoryVectorAccessor::new(1, vec![0, 1, 1000, 1001]);
    let mut ivf = Ivf::new(accessor);
    ivf.train(&TrainOption {
        iteration_num: Some(10),
        nlist: 2,
        metric_type: MetricType::L2,
    });

    let bitmap = RoaringBitmap::new();
    // More wanted than stored: all four come back.
    let all = ivf
        .search(&[500], &bitmap, &SearchOption { nprobe: 2, topk: 10 })
        .unwrap();
    assert_eq!(all.len(), 4);
    // A cap below the candidate count is hit exactly, with the closest ids.
    let two = ivf
        .search(&[0], &bitmap, &SearchOption { nprobe: 2, topk: 2 })
        .unwrap();
    assert_eq!(two.len(), 2);
    assert!(two.contains(&0));
    assert!(two.contains(&1));
}

#[test]
fn test_search_self_recall_exact() {
    let accessor = MemoryVectorAccessor::new(1, vec![0, 1, 1000, 1001]);
    let mut ivf = Ivf::new(accessor);
    ivf.train(&TrainOption {
        iteration_num: Some(10),
        nlist: 2,
        metric_type: MetricType::L2,
    });
    let bitmap = RoaringBitmap::new();
    let r = ivf
        .search(&[1000], &bitmap, &SearchOption { nprobe: 2, topk: 1 })
        .unwrap();
    assert_eq!(r, vec![2]);
}

#[test]
fn test_deserialize_failure_leaves_index_untouched() {
    let accessor = MemoryVectorAccessor::new(1, vec![0, 1, 1000, 1001]);
    let mut ivf = Ivf::new(accessor);
    ivf.train(&TrainOption {
        iteration_num: Some(10),
        nlist: 2,
        metric_type: MetricType::L2,
    });
    let good = ivf.serialize();

    // Truncated stream.
    let r = ivf.deserialize(&good[..good.len() - 1]);
    assert_eq!(r, Err(AnnError::DecodeTruncated));
    assert_eq!(ivf.clusters.len(), 2);
    assert_eq!(ivf.metric_type, MetricType::L2);

    // A record of a foreign dimension.
    let other = {
        let accessor = MemoryVectorAccessor::new(2, vec![0, 0, 5, 5]);
        let mut other = Ivf::new(accessor);
        other.train(&TrainOption {
            iteration_num: Some(2),
            nlist: 1,
            metric_type: MetricType::L2,
        });
        other.serialize()
    };
    let r = ivf.deserialize(&other);
    assert_eq!(r, Err(AnnError::DecodeInvalid));
    assert_eq!(ivf.clusters.len(), 2);

    // The good bytes still load.
    assert_eq!(ivf.deserialize(&good), Ok(()));
    assert_eq!(ivf.clusters.len(), 2);
}

#[test]
fn test_train_caps_subset_and_assigns_remainder() {
    // With one cluster, only the first 256 vectors train the centroid; the
    // rest are assigned afterwards without moving it.
    let flat: Vec<u32> = (0..300).collect();
    let accessor = MemoryVectorAccessor::new(1, flat);
    let mut ivf = Ivf::new(accessor);
    ivf.train(&TrainOption {
        iteration_num: Some(5),
        nlist: 1,
        metric_type: MetricType::L2,
    });
    assert_eq!(ivf.clusters.len(), 1);
    assert_eq!(ivf.clusters[0].elements.len(), 300);
    // The mean of 0..=255, rounded down.
    assert_eq!(ivf.clusters[0].centroid, vec![127]);

    let bitmap = RoaringBitmap::new();
    let all = ivf
        .search(&[127], &bitmap, &SearchOption { nprobe: 1, topk: 400 })
        .unwrap();
    assert_eq!(all.len(), 300);
}
