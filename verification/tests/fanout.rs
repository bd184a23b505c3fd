use phi_monitor::messages::HeartBeat;
use phi_monitor::monitor::MonitorActor;
use phi_monitor::peer::Peer;
use phi_monitor::transport::{MonitorAction, UdpActor};
use phi_monitor::messages::Monitor;

const ME: u128 = 0xaa;
const OTHER: u128 = 0xbb;

#[test]
fn ping_is_answered_with_own_id_and_fresh_time() {
    let t = UdpActor::new(ME);
    let (reply, forward) = t.on_packet(&HeartBeat::Ping(OTHER, 42), 777);
    // The reply is an acknowledgment, not an echo: the responder's id
    // and a freshly sampled timestamp.
    assert_eq!(reply, Some(HeartBeat::Pong(ME, 777)));
    assert_eq!(forward, None);
}

#[test]
fn pong_is_forwarded_with_local_receipt_time() {
    let t = UdpActor::new(ME);
    let (reply, forward) = t.on_packet(&HeartBeat::Pong(OTHER, 42), 777);
    assert_eq!(reply, None);
    // The wire timestamp (42) is discarded in favor of local time.
    assert_eq!(forward, Some(HeartBeat::Pong(OTHER, 777)));
}

#[test]
fn unknown_packet_is_dropped() {
    let t = UdpActor::new(ME);
    let (reply, forward) = t.on_packet(&HeartBeat::Unknown, 777);
    assert_eq!(reply, None);
    assert_eq!(forward, None);
}

#[test]
fn do_ping_becomes_a_ping_datagram() {
    let t = UdpActor::new(ME);
    let out = t.on_command(HeartBeat::DoPing(ME, 5, b"h:1".to_vec()));
    let (msg, addr) = out.unwrap();
    assert_eq!(msg, HeartBeat::Ping(ME, 5));
    assert_eq!(addr, b"h:1".to_vec());
    assert!(t.on_command(HeartBeat::Ping(ME, 5)).is_none());
}

#[test]
fn transport_ignores_self_registration() {
    let mut t = UdpActor::new(ME);
    let act = t.handle_monitor(Monitor::Register(Peer::new(
        ME,
        String::from("me"),
        String::from("h:1"),
    )));
    assert!(matches!(act, MonitorAction::Ignored));
}

#[test]
fn transport_starts_and_stops_pingers() {
    let mut t = UdpActor::new(ME);
    let act = t.handle_monitor(Monitor::Register(Peer::new(
        OTHER,
        String::from("o"),
        String::from("h:1"),
    )));
    match act {
        MonitorAction::StartPinging(id, addr) => {
            assert_eq!(id, OTHER);
            assert_eq!(addr, "h:1");
        }
        other => panic!("expected a pinger start, got {:?}", other),
    }
    match t.handle_monitor(Monitor::UnRegister(OTHER)) {
        MonitorAction::StopPinging(id, had) => {
            assert_eq!(id, OTHER);
            assert!(had);
        }
        other => panic!("expected a pinger stop, got {:?}", other),
    }
    // A second unregister finds no pinger to cancel.
    match t.handle_monitor(Monitor::UnRegister(OTHER)) {
        MonitorAction::StopPinging(_, had) => assert!(!had),
        other => panic!("expected a pinger stop, got {:?}", other),
    }
}

#[test]
fn fanout_subscribes_on_first_session_only() {
    let mut m = MonitorActor::new();
    assert!(m.connect(1));
    assert!(!m.connect(2));
    assert!(!m.connect(2));
    assert_eq!(m.recipients(), vec![1, 2]);
    assert!(!m.disconnect(1));
    // Disconnecting an unknown session is tolerated.
    assert!(!m.disconnect(99));
    assert!(m.disconnect(2));
    assert_eq!(m.recipients(), Vec::<u128>::new());
}
