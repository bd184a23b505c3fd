use phi_monitor::phi::{now, PhiAccrualFailureDetectorBuilder, State};

#[test]
fn should_fail_when_no_heartbeats() {
    let mut detector = PhiAccrualFailureDetectorBuilder::new().build();
    let now = now();

    for t in 0..100u64 {
        let tm = now + t * 1000;
        detector.heartbeat(tm);
        let phi = detector.phi(tm);
        println!("at:{:?}, phi:{:?}; det: {:?}", tm, phi, detector);
        if t > 10 {
            assert!(phi < 1000);
        }
    }
    for t in 100..110u64 {
        let tm = now + t * 1000;
        let phi = detector.phi(tm);
        println!("at:{:?}, phi:{:?}; det: {:?}", tm, phi, detector);
    }
    for &t in &[110u64, 200, 300] {
        let tm = now + t * 1000;
        let phi = detector.phi(tm);
        println!("at:{:?}, phi:{:?}; det: {:?}", tm, phi, detector);
        assert!(phi > 1000);
    }
}

#[test]
fn should_recover() {
    let mut detector = PhiAccrualFailureDetectorBuilder::new().build();
    let now = now();

    for t in 0..10u64 {
        let tm = now + t * 1000;
        detector.heartbeat(tm);
        let phi = detector.phi(tm);
        println!("at:{:?}, phi:{:?}; det: {:?}", tm, phi, detector);
    }
    for t in 20..30u64 {
        let tm = now + t * 1000;
        detector.heartbeat(tm);
        let phi = detector.phi(tm);
        println!("at:{:?}, phi:{:?}; det: {:?}", tm, phi, detector);
        if t > 100 {
            assert!(phi < 1000);
        }
    }
}

#[test]
fn test_phi_fd() {
    let mut detector = PhiAccrualFailureDetectorBuilder::new().build();
    let now = now();
    for i in 0..300u64 {
        let timestamp = now + i * 1000;

        if i > 290 {
            let phi = detector.phi(timestamp);
            if i == 291 {
                assert!(1000 < phi && phi < 3000);
                assert!(detector.is_available(timestamp));
            } else if i == 292 {
                assert!(3000 < phi && phi < 8000);
                assert!(detector.is_available(timestamp));
            } else if i == 293 {
                assert!(8000 < phi && phi < 16000);
                assert!(detector.is_available(timestamp));
            } else if i == 294 {
                assert!(16000 < phi && phi < 30000);
                assert!(!detector.is_available(timestamp));
            } else if i == 295 {
                assert!(30000 < phi && phi < 50000);
                assert!(!detector.is_available(timestamp));
            } else if i == 296 {
                assert!(50000 < phi && phi < 70000);
                assert!(!detector.is_available(timestamp));
            } else if i == 297 {
                assert!(70000 < phi && phi < 100000);
                assert!(!detector.is_available(timestamp));
            } else {
                assert!(100000 < phi);
                assert!(!detector.is_available(timestamp));
            }
            continue;
        } else if i > 200 {
            if i % 5 == 0 {
                let phi = detector.phi(timestamp);
                assert!(100 < phi && phi < 500);
                assert!(detector.is_available(timestamp));
                continue;
            }
        }
        detector.heartbeat(timestamp);
        assert!(detector.phi(timestamp) < 100);
        assert!(detector.is_available(timestamp));
    }
}

#[test]
fn history_order() {
    let mut detector = PhiAccrualFailureDetectorBuilder::new().build();
    let now = now();
    let actual = vec![90, 110, 625, 375];

    for t in &[120u64, 230, 320] {
        let tm = now + t;
        detector.heartbeat(tm);
        assert!(detector.is_available(tm));
    }
    let hist = detector.history(5);
    assert_eq!(hist, actual);
}

#[test]
fn lib_should_fail_when_no_heartbeats() {
    let mut detector = PhiAccrualFailureDetectorBuilder::new().build();
    let now = 1420070400000u64;

    for t in 0..100u64 {
        let tm = now + t * 1000;
        detector.heartbeat(tm);
        let phi = detector.phi(tm);
        println!("at:{:?}, phi:{:?}; det: {:?}", tm, phi, detector);
        if t > 10 {
            assert!(phi < 1000);
        }
    }
    for t in 100..110u64 {
        let tm = now + t * 1000;
        let phi = detector.phi(tm);
        println!("at:{:?}, phi:{:?}; det: {:?}", tm, phi, detector);
    }
    for &t in &[110u64, 200, 300] {
        let tm = now + t * 1000;
        let phi = detector.phi(tm);
        println!("at:{:?}, phi:{:?}; det: {:?}", tm, phi, detector);
        assert!(phi > 1000);
    }
}

#[test]
fn lib_should_recover() {
    let mut detector = PhiAccrualFailureDetectorBuilder::new().build();
    let now = 1420070400000u64;

    for t in 0..10u64 {
        let tm = now + t * 1000;
        detector.heartbeat(tm);
        let phi = detector.phi(tm);
        println!("at:{:?}, phi:{:?}; det: {:?}", tm, phi, detector);
    }
    for t in 20..30u64 {
        let tm = now + t * 1000;
        detector.heartbeat(tm);
        let phi = detector.phi(tm);
        println!("at:{:?}, phi:{:?}; det: {:?}", tm, phi, detector);
        if t > 100 {
            assert!(phi < 1000);
        }
    }
}

#[test]
fn lib_test_phi_fd() {
    let mut detector = PhiAccrualFailureDetectorBuilder::new().build();
    let now = 1420070400000u64;
    for i in 0..300u64 {
        let timestamp = now + i * 1000;

        if i > 290 {
            let phi = detector.phi(timestamp);
            if i == 291 {
                assert!(1000 < phi && phi < 3000);
                assert!(detector.is_available(timestamp));
            } else if i == 292 {
                assert!(3000 < phi && phi < 8000);
                assert!(detector.is_available(timestamp));
            } else if i == 293 {
                assert!(8000 < phi && phi < 16000);
                assert!(detector.is_available(timestamp));
            } else if i == 294 {
                assert!(16000 < phi && phi < 30000);
                assert!(!detector.is_available(timestamp));
            } else if i == 295 {
                assert!(30000 < phi && phi < 50000);
                assert!(!detector.is_available(timestamp));
            } else if i == 296 {
                assert!(50000 < phi && phi < 70000);
                assert!(!detector.is_available(timestamp));
            } else if i == 297 {
                assert!(70000 < phi && phi < 100000);
                assert!(!detector.is_available(timestamp));
            } else {
                assert!(100000 < phi);
                assert!(!detector.is_available(timestamp));
            }
            continue;
        } else if i > 200 {
            if i % 5 == 0 {
                let phi = detector.phi(timestamp);
                assert!(100 < phi && phi < 500);
                assert!(detector.is_available(timestamp));
                continue;
            }
        }
        detector.heartbeat(timestamp);
        assert!(detector.phi(timestamp) < 100);
        assert!(detector.is_available(timestamp));
    }
}

#[test]
fn seeding_two_intervals_around_estimate() {
    let detector = PhiAccrualFailureDetectorBuilder::new().build();
    assert_eq!(detector.history(2), vec![625, 375]);
    assert_eq!(detector.last(), 0);

    let custom = PhiAccrualFailureDetectorBuilder::new()
        .with_first_heartbeat_estimate(1000)
        .build();
    assert_eq!(custom.history(10), vec![1250, 750]);
}

#[test]
fn phi_zero_before_any_heartbeat() {
    let detector = PhiAccrualFailureDetectorBuilder::new().build();
    assert_eq!(detector.phi(1420070400000), 0);
    assert!(!detector.is_available(1420070400000));
    assert_eq!(detector.state(1420070400000), State::Dead(0));
}

#[test]
fn phi_non_decreasing_with_silence() {
    let mut detector = PhiAccrualFailureDetectorBuilder::new().build();
    let base = 1420070400000u64;
    for t in 0..5u64 {
        detector.heartbeat(base + t * 1000);
    }
    let last = base + 4 * 1000;
    let mut prev = detector.phi(last);
    for d in 1..40u64 {
        let cur = detector.phi(last + d * 500);
        assert!(cur >= prev);
        prev = cur;
    }
}

#[test]
fn recovery_after_dead() {
    let mut detector = PhiAccrualFailureDetectorBuilder::new().build();
    let base = 1420070400000u64;
    for t in 0..10u64 {
        detector.heartbeat(base + t * 1000);
    }
    // A long silence drives the verdict to Dead.
    let late = base + 200 * 1000;
    assert!(!detector.is_available(late));
    assert!(matches!(detector.state(late), State::Dead(_)));
    // A fresh heartbeat revives the peer at exactly that instant.
    detector.heartbeat(late);
    assert!(detector.is_available(late));
    let phi = detector.phi(late);
    assert!(phi <= 301);
    assert_eq!(detector.state(late), State::Alive(phi));
}

#[test]
fn suspect_interval_not_added_to_history() {
    let mut detector = PhiAccrualFailureDetectorBuilder::new().build();
    let base = 1420070400000u64;
    for t in 0..10u64 {
        detector.heartbeat(base + t * 1000);
    }
    let before = detector.history(1000).len();
    // The peer is already deemed dead at this timestamp.
    let late = base + 500 * 1000;
    assert!(!detector.is_available(late));
    detector.heartbeat(late);
    assert_eq!(detector.history(1000).len(), before);
    assert_eq!(detector.last(), late);
    // A later heartbeat while available again does get counted.
    let next = late + 1000;
    assert!(detector.is_available(next));
    detector.heartbeat(next);
    assert_eq!(detector.history(1000).len(), before + 1);
}

#[test]
fn backward_timestamp_is_a_zero_interval() {
    let mut detector = PhiAccrualFailureDetectorBuilder::new().build();
    let base = 1420070400000u64;
    detector.heartbeat(base + 1000);
    detector.heartbeat(base + 2000);
    // Older than `latest`: no underflow, latest moves backward as in the
    // unconditional assignment, and the interval counts as zero.
    detector.heartbeat(base + 500);
    assert_eq!(detector.last(), base + 500);
    let hist = detector.history(10);
    assert_eq!(hist[0], 0);
}

#[test]
fn builder_knobs() {
    // A lower threshold turns suspect sooner.
    let mut strict = PhiAccrualFailureDetectorBuilder::new().with_threshold(500).build();
    let base = 1420070400000u64;
    for t in 0..10u64 {
        strict.heartbeat(base + t * 1000);
    }
    let last = base + 9 * 1000;
    assert!(strict.is_available(last));
    assert!(!strict.is_available(last + 2000));

    // A small window keeps evicting: its length never exceeds the cap.
    let mut tiny = PhiAccrualFailureDetectorBuilder::new().with_sample_size(2).build();
    for t in 0..10u64 {
        tiny.heartbeat(base + t * 1000);
    }
    assert_eq!(tiny.history(100).len(), 2);
    assert_eq!(tiny.history(100), vec![1000, 1000]);

    // A generous acceptable pause keeps a long silence unsuspicious
    // that the default configuration already counts as death.
    let mut patient = PhiAccrualFailureDetectorBuilder::new()
        .with_acceptable_heartbeat_pause(10_000)
        .build();
    let mut normal = PhiAccrualFailureDetectorBuilder::new().build();
    for t in 0..10u64 {
        patient.heartbeat(base + t * 1000);
        normal.heartbeat(base + t * 1000);
    }
    assert!(patient.is_available(last + 11_000));
    assert!(!normal.is_available(last + 11_000));
}

#[test]
fn tight_deviation_floor_truncates_phi_to_zero() {
    // With the deviation floored at 1 ms and perfectly regular
    // heartbeats, the mean dwarfs the deviation so far that phi
    // truncates to zero even at the instant of a heartbeat — and a zero
    // phi counts as Dead, exactly as a detector that never saw a peer.
    let mut d = PhiAccrualFailureDetectorBuilder::new().with_min_std_deviation(1).build();
    let base = 1420070400000u64;
    for t in 0..10u64 {
        d.heartbeat(base + t * 1000);
    }
    let last = base + 9 * 1000;
    assert_eq!(d.phi(last), 0);
    assert!(!d.is_available(last));
    assert_eq!(d.state(last), State::Dead(0));
}
