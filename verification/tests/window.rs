use phi_monitor::history::HeartbeatHistory;
use phi_monitor::wire::{parse_dec, parse_uuid, u64_to_dec, uuid_bytes, valid_endpoint};

#[test]
fn window_runs_sums_incrementally() {
    let mut h = HeartbeatHistory::new(3);
    assert!(h.empty());
    assert_eq!(h.len(), 0);
    h.add(10);
    h.add(20);
    assert!(!h.empty());
    assert_eq!(h.len(), 2);
    assert_eq!(h.sum(), 30);
    assert_eq!(h.sum_squared(), 100 + 400);
    h.add(30);
    // Capacity exceeded: the oldest interval leaves, sums follow.
    h.add(40);
    assert_eq!(h.len(), 3);
    assert_eq!(h.sum(), 20 + 30 + 40);
    assert_eq!(h.sum_squared(), 400 + 900 + 1600);
    // Most-recent-first, capped at the requested count.
    assert_eq!(h.history(2), vec![40, 30]);
    assert_eq!(h.history(10), vec![40, 30, 20]);
}

#[test]
fn decimal_codec_round_trips() {
    for v in [0u64, 1, 9, 10, 99, 1420070400000, u64::MAX] {
        let d = u64_to_dec(v);
        assert_eq!(d, format!("{}", v).into_bytes());
        assert_eq!(parse_dec(&d), Some(v));
    }
    assert_eq!(parse_dec(b""), None);
    assert_eq!(parse_dec(b"007"), None);
    assert_eq!(parse_dec(b"12a4"), None);
    // One past the largest representable value.
    assert_eq!(parse_dec(b"18446744073709551616"), None);
    assert_eq!(parse_dec(b"18446744073709551615"), Some(u64::MAX));
}

#[test]
fn uuid_codec_round_trips() {
    let id: u128 = 0x550e8400_e29b_41d4_a716_446655440000;
    let b = uuid_bytes(id);
    assert_eq!(b, b"550e8400-e29b-41d4-a716-446655440000".to_vec());
    assert_eq!(parse_uuid(&b), Some(id));
    assert_eq!(parse_uuid(&uuid_bytes(0)), Some(0));
    assert_eq!(parse_uuid(&uuid_bytes(u128::MAX)), Some(u128::MAX));
    assert_eq!(parse_uuid(b"550e8400e29b41d4a716446655440000"), None);
    assert_eq!(parse_uuid(b"550E8400-e29b-41d4-a716-446655440000"), None);
    assert_eq!(parse_uuid(b"550e8400-e29b-41d4-a716-44665544000"), None);
}

#[test]
fn endpoint_check_is_byte_exact() {
    assert!(valid_endpoint(b"10.0.0.1:53"));
    assert!(!valid_endpoint(b"10.0.0.1"));
    assert!(!valid_endpoint(b":9"));
}
