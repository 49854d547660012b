use my_vector_db::distance::euclidean_distance_sq;
use my_vector_db::hnsw::Hnsw;
use rand::rngs::StdRng;
use rand::{Rng, SeedableRng};

fn scaled(parts: &[f32], scale: f32) -> Vec<i64> {
    parts.iter().map(|x| (x * scale) as i64).collect()
}

#[test]
fn test_euclidean() {
    let a: Vec<i64> = vec![1, 2, 3];
    let b: Vec<i64> = vec![4, 5, 6];
    // diff = [-3, -3, -3]; squared distance = 9 + 9 + 9 = 27
    let sq = euclidean_distance_sq(&a, &b);
    assert_eq!(sq, 27);
    let dist = (sq as f64).sqrt();
    assert!((dist - 5.196152).abs() < 1e-5);
}

#[test]
fn test_hnsw_basic_insert_search() {
    let mut hnsw = Hnsw::new(16, 100);

    // Insert a vector
    let v1: Vec<i64> = vec![1, 2, 3];
    hnsw.insert(1, v1.clone());

    // Search for it
    let results = hnsw.search(&v1, 1);
    assert_eq!(results.len(), 1);
    assert_eq!(results[0].0, 1);
    // Distance of a vector to itself is exactly zero
    assert!(results[0].1 == 0);
}

#[test]
fn test_hnsw_multiple_inserts() {
    let mut hnsw = Hnsw::new(16, 100);
    let mut rng = StdRng::seed_from_u64(11);

    let mut vectors: Vec<Vec<i64>> = Vec::new();
    for i in 0..100u32 {
        let raw: Vec<f32> = (0..10).map(|_| rng.gen::<f32>()).collect();
        let v = scaled(&raw, 1_000_000.0);
        hnsw.insert(i, v.clone());
        vectors.push(v);
    }

    // Search for the 50th vector
    let query = &vectors[50];
    let results = hnsw.search(query, 1);
    assert_eq!(results[0].0, 50);
    assert!(results[0].1 == 0);
}

#[test]
fn test_hnsw_recall() {
    // Verifies that the nearest neighbour is found in a small dataset
    let mut hnsw = Hnsw::new(16, 100);
    let mut rng = StdRng::seed_from_u64(42);

    let mut vectors: Vec<Vec<i64>> = Vec::new();
    for i in 0..200u32 {
        let raw: Vec<f32> = (0..10).map(|_| rng.gen::<f32>()).collect();
        let v = scaled(&raw, 1_000_000.0);
        hnsw.insert(i, v.clone());
        vectors.push(v);
    }

    // A random query
    let raw: Vec<f32> = (0..10).map(|_| rng.gen::<f32>()).collect();
    let query = scaled(&raw, 1_000_000.0);

    // Brute force search
    let mut best_id = 0u32;
    let mut best_dist = u128::MAX;
    for (i, v) in vectors.iter().enumerate() {
        let dist = euclidean_distance_sq(&query, v);
        if dist < best_dist {
            best_dist = dist;
            best_id = i as u32;
        }
    }

    // HNSW search for the top 10
    let results = hnsw.search(&query, 10);
    let found = results.iter().any(|(id, _)| *id == best_id);
    assert!(
        found,
        "HNSW failed to find the nearest neighbor. Best: {}, Found: {:?}",
        best_id, results
    );
}

#[test]
fn search_on_empty_index_returns_nothing() {
    let hnsw = Hnsw::new(16, 100);
    let q: Vec<i64> = vec![1, 2, 3];
    let results = hnsw.search(&q, 5);
    assert!(results.is_empty());
}

#[test]
fn k_larger_than_index_returns_all_sorted() {
    let mut hnsw = Hnsw::new(16, 100);
    hnsw.insert(1, vec![0, 0]);
    hnsw.insert(2, vec![10, 0]);
    hnsw.insert(3, vec![3, 4]);
    let results = hnsw.search(&vec![0i64, 0], 10);
    assert_eq!(results.len(), 3);
    // ascending by squared distance: 0, 25, 100
    assert_eq!(results[0], (1, 0));
    assert_eq!(results[1], (3, 25));
    assert_eq!(results[2], (2, 100));
}

#[test]
fn single_node_entry_point_and_zero_distance() {
    let mut hnsw = Hnsw::new(16, 100);
    hnsw.insert(7, vec![5, 5, 5]);
    assert_eq!(hnsw.entry_point, Some(7));
    assert_eq!(hnsw.nodes.len(), 1);
    let results = hnsw.search(&vec![5i64, 5, 5], 3);
    assert_eq!(results.len(), 1);
    assert_eq!(results[0], (7, 0));
}

#[test]
fn adjacency_respects_layer_caps() {
    let mut hnsw = Hnsw::new(2, 8);
    let mut rng = StdRng::seed_from_u64(3);
    for i in 0..60u32 {
        let v: Vec<i64> = (0..4).map(|_| rng.gen_range(-1000i64..1000)).collect();
        hnsw.insert(i, v);
    }
    let m = hnsw.m;
    let m_max0 = hnsw.m_max0;
    assert_eq!(m_max0, 2 * m);
    for node in hnsw.nodes.iter() {
        for (l, list) in node.layers.iter().enumerate() {
            let cap = if l == 0 { m_max0 } else { m };
            assert!(list.len() <= cap);
            for nb in list.iter() {
                assert!(*nb != node.id);
                // the neighbour exists and participates in this layer
                let target = hnsw.nodes.iter().find(|n| n.id == *nb).expect("dangling edge");
                assert!(l < target.layers.len());
            }
        }
    }
    // the entry point sits at the top layer
    let ep = hnsw.entry_point.expect("entry point after inserts");
    let ep_node = hnsw.nodes.iter().find(|n| n.id == ep).unwrap();
    assert_eq!(ep_node.layers.len(), hnsw.max_layers + 1);
}

#[test]
fn insert_with_level_is_deterministic_for_fixed_levels() {
    let build = || {
        let mut h = Hnsw::new(4, 16);
        let levels = [0usize, 1, 0, 2, 0, 0, 1, 0];
        for (i, lv) in levels.iter().enumerate() {
            let v: Vec<i64> = vec![(i as i64) * 3, 10 - i as i64];
            h.insert_with_level(i as u32, v, *lv);
        }
        h
    };
    let a = build();
    let b = build();
    assert_eq!(a.entry_point, b.entry_point);
    assert_eq!(a.max_layers, b.max_layers);
    assert_eq!(a.nodes.len(), b.nodes.len());
    for (na, nb) in a.nodes.iter().zip(b.nodes.iter()) {
        assert_eq!(na.id, nb.id);
        assert_eq!(na.vector, nb.vector);
        assert_eq!(na.layers, nb.layers);
    }
}

#[test]
fn inserted_nodes_are_linked() {
    let mut hnsw = Hnsw::new(4, 16);
    for i in 0..20u32 {
        let v: Vec<i64> = vec![(i as i64) * 7 % 13, (i as i64) * 3 % 11];
        hnsw.insert(i, v);
    }
    // every node of a multi-node index has layer-0 neighbours: each
    // insert links the new node into its insertion band, and earlier
    // nodes gain the new id in return
    for node in hnsw.nodes.iter() {
        assert!(!node.layers[0].is_empty(), "node {} is isolated", node.id);
    }
}
