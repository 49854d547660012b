use my_vector_db::router::{
    merge_results, write_quorum_met, ConsistentHashRing, Router, RouterError,
};

#[test]
fn empty_ring_is_unavailable() {
    let ring = ConsistentHashRing::new();
    let router = Router::new(ring, 2, 1);
    assert_eq!(router.plan_put(42), Err(RouterError::Unavailable));
    assert_eq!(router.plan_search(), Err(RouterError::Unavailable));
}

#[test]
fn preference_list_walks_distinct_nodes() {
    let mut ring = ConsistentHashRing::new();
    ring.add_node("http://[::1]:50051");
    ring.add_node("http://[::1]:50052");
    ring.add_node("http://[::1]:50053");
    assert_eq!(ring.get_all_nodes().len(), 3);

    for key in [0u32, 1, 7, 42, 99999] {
        let prefs = ring.get_preference_list(key, 2);
        assert_eq!(prefs.len(), 2);
        assert_ne!(prefs[0], prefs[1]);
        // asking for more replicas than nodes yields every node once
        let all = ring.get_preference_list(key, 10);
        assert_eq!(all.len(), 3);
        assert_ne!(all[0], all[1]);
        assert_ne!(all[0], all[2]);
        assert_ne!(all[1], all[2]);
    }
}

#[test]
fn re_adding_a_node_does_not_grow_the_ring() {
    let mut ring = ConsistentHashRing::new();
    ring.add_node("a");
    ring.add_node("b");
    ring.add_node("a");
    assert_eq!(ring.get_all_nodes().len(), 2);
}

#[test]
fn quorum_accounting() {
    // ring {A,B,C}, R=2, W=1: with one of the two replicas down the
    // put still succeeds; with both down it fails
    let mut ring = ConsistentHashRing::new();
    ring.add_node("A");
    ring.add_node("B");
    ring.add_node("C");
    let router = Router::new(ring, 2, 1);
    let targets = router.plan_put(5).expect("non-empty ring has targets");
    assert_eq!(targets.len(), 2);

    // the first target (say B) is dead, the second acknowledges
    let acks = vec![false, true];
    assert!(write_quorum_met(&acks, router.write_quorum));

    // both replicas dead: quorum missed
    let acks = vec![false, false];
    assert!(!write_quorum_met(&acks, router.write_quorum));
}

#[test]
fn merge_two_backends() {
    // backends answered [(7, 0.1), (9, 0.3)] and [(7, 0.1), (4, 0.2)]
    // (distances scaled to integers); merged top-3 keeps each id once,
    // ascending
    let all: Vec<(u32, u128)> = vec![(7, 100), (9, 300), (7, 100), (4, 200)];
    let merged = merge_results(&all, 3);
    assert_eq!(merged, vec![(7, 100), (4, 200), (9, 300)]);
}

#[test]
fn merge_is_idempotent_on_its_own_output() {
    let m: Vec<(u32, u128)> = vec![(3, 10), (1, 20), (9, 20), (2, 35)];
    let mut doubled = m.clone();
    doubled.extend_from_slice(&m);
    let merged = merge_results(&doubled, 4);
    assert_eq!(merged, m);
}

#[test]
fn merge_truncates_to_k_and_keeps_min_distance_per_id() {
    let all: Vec<(u32, u128)> = vec![(1, 50), (2, 10), (1, 5), (3, 40), (4, 60)];
    let merged = merge_results(&all, 2);
    assert_eq!(merged, vec![(1, 5), (2, 10)]);
}
