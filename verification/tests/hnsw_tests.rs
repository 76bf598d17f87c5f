use hnsw_rust::DistanceCalculator;
use hnsw_rust::HnswError;
use hnsw_rust::HnswIndex;
use hnsw_rust::VectorItem;

use rand::Rng;

/// Euclidean distance over the IEEE 754 bit patterns the index stores.
/// Returns the bit pattern of the (non-negative) distance, which orders
/// exactly like the distance itself.
struct EuclideanDistance;

impl DistanceCalculator for EuclideanDistance {
    fn calculate(&self, item1: &VectorItem, item2: &VectorItem) -> u64 {
        let n = item1.vector.len().min(item2.vector.len());
        let mut sum = 0.0_f64;
        for i in 0..n {
            let a = f64::from_bits(item1.vector[i]);
            let b = f64::from_bits(item2.vector[i]);
            sum += (a - b) * (a - b);
        }
        sum.sqrt().to_bits()
    }
}

fn item(id: usize, comps: &[f64]) -> VectorItem {
    VectorItem { id, vector: comps.iter().map(|c| c.to_bits()).collect() }
}

fn euclid(a: &VectorItem, b: &VectorItem) -> f64 {
    let n = a.vector.len().min(b.vector.len());
    let mut sum = 0.0_f64;
    for i in 0..n {
        let x = f64::from_bits(a.vector[i]);
        let y = f64::from_bits(b.vector[i]);
        sum += (x - y) * (x - y);
    }
    sum.sqrt()
}

fn random_item(id: usize, dim: usize) -> VectorItem {
    let mut rng = rand::thread_rng();
    let comps: Vec<f64> = (0..dim).map(|_| rng.gen_range(-1.0..1.0)).collect();
    item(id, &comps)
}

#[test]
fn test_basic_insertion() {
    let mut index = HnswIndex::new(EuclideanDistance);
    let it = item(1, &[1.0, 0.0]);
    assert!(index.add(it).is_ok());
}

#[test]
fn test_batch_add() {
    let mut index = HnswIndex::new(EuclideanDistance);
    let mut items = Vec::new();
    for i in 0..100 {
        items.push(random_item(i, 10));
    }
    assert!(index.batch_add(items).is_ok());
    let stats = index.get_stats();
    assert_eq!(stats.total_nodes, 100);
}

#[test]
fn test_empty_search() {
    let index = HnswIndex::new(EuclideanDistance);
    let query = item(0, &[1.0, 2.0, 3.0]);
    let res = index.search(&query, 5).unwrap();
    assert!(res.is_empty());
}

#[test]
fn test_single_item_self_query() {
    let mut index = HnswIndex::new(EuclideanDistance);
    index.add(item(1, &[0.0, 0.0, 0.0])).unwrap();
    let res = index.search(&item(99, &[0.0, 0.0, 0.0]), 3).unwrap();
    assert_eq!(res.len(), 1);
    assert_eq!(res[0].id, 1);
}

#[test]
fn test_dimension_mismatch() {
    let mut index = HnswIndex::new(EuclideanDistance);
    index.add(item(1, &[1.0, 2.0])).unwrap();
    let err = index.add(item(2, &[1.0, 2.0, 3.0])).unwrap_err();
    assert_eq!(err, HnswError::DimensionMismatch);
}

#[test]
fn test_query_dimension_mismatch() {
    let mut index = HnswIndex::new(EuclideanDistance);
    index.add(item(1, &[1.0, 2.0])).unwrap();
    let err = index.search(&item(9, &[1.0, 2.0, 3.0]), 1).unwrap_err();
    assert_eq!(err, HnswError::DimensionMismatch);
}

#[test]
fn test_duplicate_id() {
    let mut index = HnswIndex::new(EuclideanDistance);
    index.add(item(1, &[0.0, 0.0])).unwrap();
    let err = index.add(item(1, &[0.5, 0.5])).unwrap_err();
    assert_eq!(err, HnswError::DuplicateId);
}

#[test]
fn test_invalid_vector() {
    let mut index = HnswIndex::new(EuclideanDistance);
    let err = index.add(item(1, &[f64::NAN, 0.0])).unwrap_err();
    assert_eq!(err, HnswError::InvalidVector);
    let err2 = index.add(item(1, &[0.0, f64::INFINITY])).unwrap_err();
    assert_eq!(err2, HnswError::InvalidVector);
    // a rejected insert leaves the index empty
    assert_eq!(index.get_stats().total_nodes, 0);
}

#[test]
fn test_ordering() {
    let mut index = HnswIndex::new(EuclideanDistance);
    index.add(item(1, &[0.0, 0.0])).unwrap();
    index.add(item(2, &[1.0, 0.0])).unwrap();
    index.add(item(3, &[3.0, 0.0])).unwrap();
    let res = index.search(&item(9, &[0.1, 0.0]), 3).unwrap();
    let ids: Vec<usize> = res.iter().map(|r| r.id).collect();
    assert_eq!(ids, vec![1, 2, 3]);
}

#[test]
fn test_degree_bound_after_churn() {
    let mut index = HnswIndex::with_params(EuclideanDistance, 4, 128, 64, 16);
    for i in 0..1000 {
        index.add(random_item(i, 16)).unwrap();
    }
    for i in 0..1000 {
        let node = index.get_node(i).expect("stored node must resolve");
        for (layer, list) in node.connections.iter().enumerate() {
            if layer == 0 {
                assert!(list.len() <= 8);
            } else {
                assert!(list.len() <= 4);
            }
            // edge validity: ids resolve, reach the layer, no self, no repeats
            for (w, &nb) in list.iter().enumerate() {
                assert_ne!(nb, node.id);
                let other = index.get_node(nb).expect("neighbour must resolve");
                assert!(other.layer >= layer);
                for &nb2 in &list[w + 1..] {
                    assert_ne!(nb, nb2);
                }
            }
        }
    }
}

#[test]
fn test_search_ordering_and_size() {
    let mut index = HnswIndex::new(EuclideanDistance);
    for i in 0..50 {
        index.add(random_item(i, 4)).unwrap();
    }
    let query = random_item(999, 4);
    let res = index.search(&query, 10).unwrap();
    assert_eq!(res.len(), 10);
    for w in 1..res.len() {
        assert!(euclid(&query, &res[w - 1]) <= euclid(&query, &res[w]));
    }
    for a in 0..res.len() {
        for b in a + 1..res.len() {
            assert_ne!(res[a].id, res[b].id);
        }
    }
}

#[test]
fn test_trivial_recall() {
    let mut index = HnswIndex::new(EuclideanDistance);
    let mut items = Vec::new();
    for i in 0..30 {
        items.push(random_item(i, 8));
    }
    for it in &items {
        index.add(VectorItem { id: it.id, vector: it.vector.clone() }).unwrap();
    }
    for it in &items {
        let res = index.search(&VectorItem { id: 9999, vector: it.vector.clone() }, 1).unwrap();
        assert_eq!(res.len(), 1);
        assert_eq!(res[0].id, it.id);
        assert_eq!(euclid(it, &res[0]), 0.0);
    }
}

#[test]
fn test_statistical_recall_small() {
    // a scaled-down recall check: mean recall@5 against brute force
    let mut index = HnswIndex::new(EuclideanDistance);
    let mut items = Vec::new();
    for i in 0..200 {
        items.push(random_item(i, 8));
    }
    for it in &items {
        index.add(VectorItem { id: it.id, vector: it.vector.clone() }).unwrap();
    }
    let k = 5;
    let mut hits = 0usize;
    let queries = 20;
    for _ in 0..queries {
        let query = random_item(10000, 8);
        let mut truth: Vec<(usize, f64)> =
            items.iter().map(|it| (it.id, euclid(&query, it))).collect();
        truth.sort_by(|a, b| a.1.partial_cmp(&b.1).unwrap());
        let truth_ids: Vec<usize> = truth.iter().take(k).map(|t| t.0).collect();
        let res = index.search(&query, k).unwrap();
        hits += res.iter().filter(|r| truth_ids.contains(&r.id)).count();
    }
    let recall = hits as f64 / (queries * k) as f64;
    assert!(recall >= 0.6, "mean recall too low: {}", recall);
}

#[test]
fn test_batch_add_stops_at_first_failure() {
    let mut index = HnswIndex::new(EuclideanDistance);
    let items = vec![
        item(1, &[0.0, 0.0]),
        item(1, &[1.0, 1.0]),
        item(2, &[2.0, 2.0]),
    ];
    let err = index.batch_add(items).unwrap_err();
    assert_eq!(err, HnswError::DuplicateId);
    // the item before the failure stays, the one after was never tried
    let stats = index.get_stats();
    assert_eq!(stats.total_nodes, 1);
    assert!(index.get_node(1).is_some());
    assert!(index.get_node(2).is_none());
}

#[test]
fn test_stats() {
    let mut index = HnswIndex::new(EuclideanDistance);
    let empty_stats = index.get_stats();
    assert_eq!(empty_stats.total_nodes, 0);
    assert_eq!(empty_stats.total_connections, 0);
    assert_eq!(empty_stats.max_level, 0);
    assert!(empty_stats.level_distribution.is_empty());

    index.add(item(7, &[1.0, 2.0])).unwrap();
    let one = index.get_stats();
    assert_eq!(one.total_nodes, 1);
    assert_eq!(one.total_connections, 0);
    assert_eq!(one.level_distribution[0], 1);

    index.add(item(8, &[2.0, 1.0])).unwrap();
    let two = index.get_stats();
    assert_eq!(two.total_nodes, 2);
    // the two nodes link to each other at least at the base layer
    assert!(two.total_connections >= 2);
    assert_eq!(two.level_distribution[0], 2);
}

#[test]
fn test_max_layer_clamp() {
    // layer sampling is clamped to the configured maximum, which with
    // m = 2 (an advance chance of one half per layer) would otherwise
    // be exceeded quickly over many inserts
    let mut index = HnswIndex::with_params(EuclideanDistance, 2, 32, 16, 3);
    for i in 0..500 {
        index.add(random_item(i, 2)).unwrap();
    }
    let stats = index.get_stats();
    assert!(stats.max_level <= 3);
    assert_eq!(stats.level_distribution.len(), stats.max_level + 1);
}

#[test]
fn test_get_node_contents() {
    let mut index = HnswIndex::new(EuclideanDistance);
    index.add(item(42, &[1.5, -2.5])).unwrap();
    let node = index.get_node(42).unwrap();
    assert_eq!(node.id, 42);
    assert_eq!(node.item.id, 42);
    assert_eq!(node.item.vector, vec![1.5f64.to_bits(), (-2.5f64).to_bits()]);
    assert_eq!(node.connections.len(), node.layer + 1);
    assert!(node.connections.iter().all(|l| l.is_empty()));
    assert!(index.get_node(41).is_none());
}

#[test]
fn test_error_descriptions() {
    assert_eq!(HnswError::DuplicateId.describe(), "duplicate id");
    assert_eq!(HnswError::DimensionMismatch.describe(), "dimension mismatch");
    assert_eq!(HnswError::InvalidVector.describe(), "invalid vector");
    assert_eq!(
        HnswError::InternalInvariantViolation.describe(),
        "internal invariant violation"
    );
}
