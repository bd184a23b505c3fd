use phi_monitor::inventory::InventoryActor;
use phi_monitor::messages::{HeartBeat, Monitor, StatusEvent};
use phi_monitor::peer::Peer;
use phi_monitor::phi::State;

const ME: u128 = 0x11;
const OTHER: u128 = 0x2222;

#[test]
fn register_then_status_has_one_entry() {
    let mut reg = InventoryActor::new(ME);
    let ok = reg.register(Peer::new(OTHER, String::from("a"), String::from("127.0.0.1:9000")));
    assert!(ok);
    let st = reg.get_status(1420070400000);
    assert_eq!(st.0.len(), 1);
    assert_eq!(st.0[0].id, OTHER);
    assert_eq!(st.0[0].name, "a");
    assert_eq!(st.0[0].address, "127.0.0.1:9000");
    assert_eq!(st.0[0].last, 0);
    assert_eq!(st.0[0].phi, 0);
    assert_eq!(st.0[0].state, State::Dead(0));
    assert_eq!(st.0[0].history, vec![625, 375]);
}

#[test]
fn idempotent_reregister_keeps_one_fresh_entry() {
    let mut reg = InventoryActor::new(ME);
    reg.register(Peer::new(OTHER, String::from("first"), String::from("h1:1")));
    // Accumulate some history on the first registration's detector.
    reg.on_pong(OTHER, 1420070400000);
    reg.on_pong(OTHER, 1420070401000);
    reg.on_pong(OTHER, 1420070402000);
    let before = reg.get_status(1420070402000);
    assert!(before.0[0].history.len() > 2);

    // Re-registering the same id replaces metadata and resets the
    // detector: exactly one entry, second metadata, seeded history only.
    reg.register(Peer::new(OTHER, String::from("second"), String::from("h2:2")));
    let st = reg.get_status(1420070402000);
    assert_eq!(st.0.len(), 1);
    assert_eq!(st.0[0].name, "second");
    assert_eq!(st.0[0].address, "h2:2");
    assert_eq!(st.0[0].history.len(), 2);
    assert_eq!(st.0[0].history, vec![625, 375]);
    assert_eq!(st.0[0].last, 0);
}

#[test]
fn self_registration_is_ignored() {
    let mut reg = InventoryActor::new(ME);
    let ok = reg.register(Peer::new(ME, String::from("me"), String::from("h:1")));
    assert!(!ok);
    assert_eq!(reg.get_status(0).0.len(), 0);
}

#[test]
fn unregister_is_idempotent() {
    let mut reg = InventoryActor::new(ME);
    reg.register(Peer::new(OTHER, String::from("a"), String::from("h:1")));
    reg.unregister(OTHER);
    assert_eq!(reg.get_status(0).0.len(), 0);
    // Removing an absent id is not an error.
    reg.unregister(OTHER);
    reg.unregister(0xdead);
    assert_eq!(reg.get_status(0).0.len(), 0);
}

#[test]
fn pong_for_unknown_peer_is_dropped() {
    let mut reg = InventoryActor::new(ME);
    reg.register(Peer::new(OTHER, String::from("a"), String::from("h:1")));
    reg.on_pong(0xdead, 1420070400000);
    let st = reg.get_status(1420070400000);
    assert_eq!(st.0.len(), 1);
    assert_eq!(st.0[0].last, 0);
}

#[test]
fn pong_feeds_the_detector() {
    let mut reg = InventoryActor::new(ME);
    reg.register(Peer::new(OTHER, String::from("a"), String::from("h:1")));
    let t0 = 1420070400000u64;
    reg.handle_heartbeat(&HeartBeat::Pong(OTHER, t0));
    reg.handle_heartbeat(&HeartBeat::Pong(OTHER, t0 + 1000));
    let st = reg.get_status(t0 + 1000);
    assert_eq!(st.0[0].last, t0 + 1000);
    assert_eq!(st.0[0].history.len(), 3);
    assert!(matches!(st.0[0].state, State::Alive(_)));
    // Pings and unknown frames leave the registry untouched.
    reg.handle_heartbeat(&HeartBeat::Ping(OTHER, t0 + 2000));
    reg.handle_heartbeat(&HeartBeat::Unknown);
    assert_eq!(reg.get_status(t0 + 1000).0[0].last, t0 + 1000);
}

#[test]
fn handle_monitor_register_and_unregister() {
    let mut reg = InventoryActor::new(ME);
    let ok = reg.handle_monitor(Monitor::Register(Peer::new(
        OTHER,
        String::from("a"),
        String::from("h:1"),
    )));
    assert!(ok);
    assert_eq!(reg.get_status(0).0.len(), 1);
    let ok = reg.handle_monitor(Monitor::UnRegister(OTHER));
    assert!(ok);
    assert_eq!(reg.get_status(0).0.len(), 0);
}

#[test]
fn snapshot_tick_only_with_subscribers() {
    let mut reg = InventoryActor::new(ME);
    reg.register(Peer::new(OTHER, String::from("a"), String::from("h:1")));
    assert!(reg.tick(0).is_none());
    reg.handle_status_event(StatusEvent::Subscribe);
    let st = reg.tick(0);
    assert!(st.is_some());
    assert_eq!(st.unwrap().0.len(), 1);
    reg.handle_status_event(StatusEvent::UnSubscribe);
    assert!(reg.tick(0).is_none());
}

#[test]
fn endpoint_validation() {
    let good = |a: &str| Peer::new(OTHER, String::from("x"), String::from(a)).has_valid_address();
    assert!(good("127.0.0.1:8080"));
    assert!(good("h:1"));
    assert!(good("example.org:65535"));
    assert!(good("[::1]:80"));
    assert!(good("h:0080"));
    assert!(!good("nocolon"));
    assert!(!good(":80"));
    assert!(!good("h:"));
    assert!(!good("h:65536"));
    assert!(!good("h:99999999999999999999999"));
    assert!(!good("h:12a"));
    assert!(!good(""));
}
