use witransfer::address::Ipv4Address;
use witransfer::codec::encode;
use witransfer::descriptor::{local_announcement, DeviceDescriptor};
use witransfer::session::{
    announcer_pass, listener_pass, ComponentAction, ListenerEvent, Session, SessionEvent,
    SessionPhase,
};

fn addr(o0: u8, o1: u8, o2: u8, o3: u8) -> Ipv4Address {
    Ipv4Address { o0, o1, o2, o3 }
}

fn descriptor(display: &str, host: &str) -> DeviceDescriptor {
    DeviceDescriptor {
        display_name: display.to_string(),
        user_name: "user".to_string(),
        host_name: host.to_string(),
        platform: "Linux".to_string(),
        distro: "Debian".to_string(),
        concurrency_hint: 4,
    }
}

#[test]
fn bind_success_starts_both_components() {
    let mut session = Session::new(addr(192, 168, 0, 1));
    assert!(matches!(session.phase, SessionPhase::Initializing));
    session.step(SessionEvent::BindSucceeded);
    assert!(matches!(session.phase, SessionPhase::Running));
    assert!(session.announcer_alive);
    assert!(session.listener_alive);
}

#[test]
fn bind_failure_stops_the_session_before_it_runs() {
    let mut session = Session::new(addr(192, 168, 0, 1));
    session.step(SessionEvent::BindFailed);
    assert!(matches!(session.phase, SessionPhase::Stopped));
    assert!(!session.announcer_alive);
    assert!(!session.listener_alive);
    // No later event revives a stopped session; it never reaches Running.
    for event in [
        SessionEvent::BindSucceeded,
        SessionEvent::AnnouncerFatal,
        SessionEvent::ListenerFatal,
        SessionEvent::Cancelled,
    ] {
        session.step(event);
        assert!(matches!(session.phase, SessionPhase::Stopped));
    }
}

#[test]
fn one_dead_component_only_degrades_the_session() {
    let mut session = Session::new(addr(192, 168, 0, 1));
    session.step(SessionEvent::BindSucceeded);
    session.step(SessionEvent::AnnouncerFatal);
    assert!(matches!(session.phase, SessionPhase::Running));
    assert!(!session.announcer_alive);
    assert!(session.listener_alive);
    session.step(SessionEvent::ListenerFatal);
    assert!(matches!(session.phase, SessionPhase::Stopped));
}

#[test]
fn cancellation_stops_everything_but_keeps_the_table() {
    let mut session = Session::new(addr(192, 168, 0, 1));
    session.step(SessionEvent::BindSucceeded);
    let bob = local_announcement(descriptor("Bob", "bobbox"), addr(192, 168, 0, 2));
    let payload = encode(&bob);
    listener_pass(&mut session.registry, &ListenerEvent::Datagram(payload));
    assert_eq!(session.registry.list().len(), 1);
    session.step(SessionEvent::Cancelled);
    assert!(matches!(session.phase, SessionPhase::Stopped));
    assert_eq!(session.registry.list().len(), 1);
}

#[test]
fn garbage_does_not_stop_the_listener_and_later_payloads_still_count() {
    let local = addr(192, 168, 0, 1);
    let mut session = Session::new(local);
    session.step(SessionEvent::BindSucceeded);

    let truncated = "{\"identifier\":\"WiTransfer\",\"device_info\":{\"real_na";
    let action = listener_pass(
        &mut session.registry,
        &ListenerEvent::Datagram(truncated.to_string()),
    );
    assert!(matches!(action, ComponentAction::Continue));
    assert_eq!(session.registry.list().len(), 0);

    let action = listener_pass(
        &mut session.registry,
        &ListenerEvent::Datagram("not json at all".to_string()),
    );
    assert!(matches!(action, ComponentAction::Continue));

    let bob = local_announcement(descriptor("Bob", "bobbox"), addr(192, 168, 0, 2));
    let action = listener_pass(
        &mut session.registry,
        &ListenerEvent::Datagram(encode(&bob)),
    );
    assert!(matches!(action, ComponentAction::Continue));
    assert_eq!(session.registry.list().len(), 1);
    assert_eq!(
        session.registry.get(addr(192, 168, 0, 2)).unwrap().label,
        "Bob - bobbox"
    );
}

#[test]
fn timeout_is_benign_and_transport_failure_is_fatal() {
    let mut session = Session::new(addr(192, 168, 0, 1));
    session.step(SessionEvent::BindSucceeded);
    let action = listener_pass(&mut session.registry, &ListenerEvent::TimedOut);
    assert!(matches!(action, ComponentAction::Continue));
    let action = listener_pass(&mut session.registry, &ListenerEvent::TransportFailed);
    assert!(matches!(action, ComponentAction::Stop));
    session.step(SessionEvent::ListenerFatal);
    assert!(matches!(session.phase, SessionPhase::Running));
}

#[test]
fn announcer_stops_only_on_send_failure() {
    assert!(matches!(announcer_pass(true), ComponentAction::Continue));
    assert!(matches!(announcer_pass(false), ComponentAction::Stop));
}

#[test]
fn two_sessions_discover_each_other_within_two_cycles() {
    let addr_a = addr(192, 168, 1, 10);
    let addr_b = addr(192, 168, 1, 11);
    let mut session_a = Session::new(addr_a);
    let mut session_b = Session::new(addr_b);
    session_a.step(SessionEvent::BindSucceeded);
    session_b.step(SessionEvent::BindSucceeded);

    let announce_a = encode(&local_announcement(descriptor("Alice", "alicebox"), addr_a));
    let announce_b = encode(&local_announcement(descriptor("Bob", "bobbox"), addr_b));

    // Two announce cycles; each broadcast reaches the other host and,
    // since broadcasts loop back on a LAN, the sender itself too.
    for _cycle in 0..2 {
        for payload in [&announce_a, &announce_b] {
            listener_pass(
                &mut session_a.registry,
                &ListenerEvent::Datagram(payload.clone()),
            );
            listener_pass(
                &mut session_b.registry,
                &ListenerEvent::Datagram(payload.clone()),
            );
        }
    }

    assert_eq!(session_a.registry.list().len(), 1);
    let seen_by_a = session_a.registry.get(addr_b).expect("A must know B");
    assert_eq!(seen_by_a.label, "Bob - bobbox");
    assert!(session_a.registry.get(addr_a).is_none());

    assert_eq!(session_b.registry.list().len(), 1);
    let seen_by_b = session_b.registry.get(addr_a).expect("B must know A");
    assert_eq!(seen_by_b.label, "Alice - alicebox");
    assert!(session_b.registry.get(addr_b).is_none());
}
