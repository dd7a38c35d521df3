use little_raft::random::{draw_in_range, election_timeout, should_deliver, survives_drop};

#[test]
fn election_timeout_stays_in_range() {
    let mut draws = Vec::new();
    for _ in 0..200 {
        let t = election_timeout(1000, 1500).expect("the random source failed");
        assert!(1000 <= t && t <= 1500);
        draws.push(t);
    }
    // The draws spread over the range rather than sticking to a bound.
    assert!(draws.iter().any(|t| *t != 1000));
    assert!(draws.iter().any(|t| *t != 1500));
    assert_eq!(election_timeout(7, 7), Some(7));
    assert_eq!(draw_in_range(3, 3), Some(3));
}

#[test]
fn drop_decisions() {
    assert!(survives_drop(50, 50));
    assert!(!survives_drop(49, 50));
    assert!(survives_drop(99, 99));
    assert!(!survives_drop(99, 100));
    for _ in 0..100 {
        assert_eq!(should_deliver(0), Some(true));
        assert_eq!(should_deliver(100), Some(false));
        assert_eq!(should_deliver(101), Some(false));
    }
}
