use alice_cache::oracle::{MarkovOracle, SharedOracle, PREFETCH_THRESHOLD};

#[test]
fn test_oracle_basic() {
    let mut oracle = MarkovOracle::new();

    // Train: A -> B -> C -> A -> B -> C ...
    for _ in 0..100 {
        oracle.record(1); // A
        oracle.record(2); // B
        oracle.record(3); // C
    }

    // Should predict B after A
    assert!(oracle.should_prefetch(1, 2));
    // Should predict C after B
    assert!(oracle.should_prefetch(2, 3));
    // Should predict A after C
    assert!(oracle.should_prefetch(3, 1));

    // Note: Count-Min Sketch is probabilistic - false positives possible
    // We verify trained transitions exceed threshold (true positives work)
    assert!(oracle.transition_freq(1, 2) >= PREFETCH_THRESHOLD);
    assert!(oracle.transition_freq(2, 3) >= PREFETCH_THRESHOLD);
    assert!(oracle.transition_freq(3, 1) >= PREFETCH_THRESHOLD);
}

#[test]
fn test_oracle_cold_start() {
    let oracle = MarkovOracle::new();

    // No training - should not recommend anything
    assert!(!oracle.should_prefetch(1, 2));
    assert!(!oracle.should_prefetch(100, 200));
}

#[test]
fn test_oracle_reset() {
    let mut oracle = MarkovOracle::new();

    // Train
    for _ in 0..100 {
        oracle.record(1);
        oracle.record(2);
    }
    assert!(oracle.should_prefetch(1, 2));

    // Reset
    oracle.reset();
    assert!(!oracle.should_prefetch(1, 2));
}

#[test]
fn test_shared_oracle() {
    let oracle = SharedOracle::new();

    // Train from multiple "threads" (simulated)
    for _ in 0..50 {
        oracle.record(10);
        oracle.record(20);
    }

    assert!(oracle.should_prefetch(10, 20));
}

#[test]
fn test_oracle_asymmetric() {
    let mut oracle = MarkovOracle::new();

    // Train A -> B only
    for _ in 0..100 {
        oracle.record(1);
        oracle.record(2);
        // Reset to prevent B->A transition
        oracle.forget_last();
    }

    // A->B should be strong
    assert!(oracle.should_prefetch(1, 2));
    // B->A should be weak (hash mixing makes them different)
    let ba_freq = oracle.transition_freq(2, 1);
    let ab_freq = oracle.transition_freq(1, 2);
    assert!(ab_freq > ba_freq);
}
