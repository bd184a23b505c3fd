use phi_monitor::messages::{DecodeResult, HBCodec, HeartBeat};

const ID: u128 = 0x550e8400_e29b_41d4_a716_446655440000;

#[test]
fn encode_is_framed_json() {
    let enc = HBCodec::encode(&HeartBeat::Ping(ID, 1420070400000)).unwrap();
    let body = b"{\"Ping\":[\"550e8400-e29b-41d4-a716-446655440000\",1420070400000]}";
    assert_eq!(enc.len(), 2 + body.len());
    assert_eq!(enc[0] as usize, body.len() / 256);
    assert_eq!(enc[1] as usize, body.len() % 256);
    assert_eq!(&enc[2..], &body[..]);
}

#[test]
fn round_trip_every_variant() {
    let msgs = vec![
        HeartBeat::Ping(ID, 0),
        HeartBeat::Ping(0, u64::MAX),
        HeartBeat::Pong(u128::MAX, 1420070400000),
        HeartBeat::Unknown,
        HeartBeat::DoPing(ID, 99, b"127.0.0.1:8080".to_vec()),
        HeartBeat::DoPing(1, 2, Vec::new()),
    ];
    for m in msgs {
        let enc = HBCodec::encode(&m).unwrap();
        match HBCodec::decode(&enc) {
            DecodeResult::Frame(got, used) => {
                assert_eq!(got, m);
                assert_eq!(used, enc.len());
            }
            other => panic!("expected a frame, got {:?}", other),
        }
    }
}

#[test]
fn partial_buffers_need_more_without_consuming() {
    let enc = HBCodec::encode(&HeartBeat::Pong(ID, 123456)).unwrap();
    for k in 0..enc.len() {
        match HBCodec::decode(&enc[..k]) {
            DecodeResult::NeedMore => {}
            other => panic!("prefix of {} bytes gave {:?}", k, other),
        }
    }
}

#[test]
fn corrupted_frame_is_dropped_and_stream_recovers() {
    // A complete frame whose body is not valid JSON for any variant.
    let mut buf: Vec<u8> = vec![0, 5];
    buf.extend_from_slice(b"@@@@@");
    let good = HBCodec::encode(&HeartBeat::Ping(ID, 7)).unwrap();
    buf.extend_from_slice(&good);

    let used = match HBCodec::decode(&buf) {
        DecodeResult::Dropped(used) => {
            assert_eq!(used, 7);
            used
        }
        other => panic!("expected a dropped frame, got {:?}", other),
    };
    match HBCodec::decode(&buf[used..]) {
        DecodeResult::Frame(got, used2) => {
            assert_eq!(got, HeartBeat::Ping(ID, 7));
            assert_eq!(used2, good.len());
        }
        other => panic!("expected the next frame, got {:?}", other),
    }
}

#[test]
fn trailing_bytes_are_left_alone() {
    let enc = HBCodec::encode(&HeartBeat::Pong(3, 4)).unwrap();
    let mut buf = enc.clone();
    buf.extend_from_slice(b"rest");
    match HBCodec::decode(&buf) {
        DecodeResult::Frame(got, used) => {
            assert_eq!(got, HeartBeat::Pong(3, 4));
            assert_eq!(used, enc.len());
        }
        other => panic!("expected a frame, got {:?}", other),
    }
}

#[test]
fn unescapable_endpoint_bytes_refuse_to_encode() {
    // A quote inside the endpoint would need escaping: refused.
    assert!(HBCodec::encode(&HeartBeat::DoPing(1, 2, b"a\"b".to_vec())).is_none());
    assert!(HBCodec::encode(&HeartBeat::DoPing(1, 2, b"a\\b".to_vec())).is_none());
    assert!(HBCodec::encode(&HeartBeat::DoPing(1, 2, vec![7])).is_none());
}

#[test]
fn oversized_body_refuses_to_encode() {
    let addr = vec![97u8; 70000];
    assert!(HBCodec::encode(&HeartBeat::DoPing(1, 2, addr)).is_none());
}

#[test]
fn nearly_valid_bodies_are_dropped() {
    // Correct length prefix, tag, and id, but a corrupted timestamp.
    let body = b"{\"Ping\":[\"550e8400-e29b-41d4-a716-446655440000\",12x4]}";
    let mut buf: Vec<u8> = vec![0, body.len() as u8];
    buf.extend_from_slice(body);
    assert!(matches!(HBCodec::decode(&buf), DecodeResult::Dropped(_)));

    // Uppercase hex in the id: not the canonical form.
    let body = b"{\"Ping\":[\"550E8400-e29b-41d4-a716-446655440000\",124]}";
    let mut buf: Vec<u8> = vec![0, body.len() as u8];
    buf.extend_from_slice(body);
    assert!(matches!(HBCodec::decode(&buf), DecodeResult::Dropped(_)));

    // A leading zero in the timestamp: not the canonical form.
    let body = b"{\"Ping\":[\"550e8400-e29b-41d4-a716-446655440000\",0124]}";
    let mut buf: Vec<u8> = vec![0, body.len() as u8];
    buf.extend_from_slice(body);
    assert!(matches!(HBCodec::decode(&buf), DecodeResult::Dropped(_)));
}
