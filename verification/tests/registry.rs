use witransfer::address::Ipv4Address;
use witransfer::descriptor::{DeviceDescriptor, Envelope};
use witransfer::registry::Registry;

fn addr(o0: u8, o1: u8, o2: u8, o3: u8) -> Ipv4Address {
    Ipv4Address { o0, o1, o2, o3 }
}

fn envelope(tag: &str, display: &str, host: &str, from: Ipv4Address) -> Envelope {
    Envelope {
        protocol_tag: tag.to_string(),
        descriptor: DeviceDescriptor {
            display_name: display.to_string(),
            user_name: "user".to_string(),
            host_name: host.to_string(),
            platform: "Linux".to_string(),
            distro: "Debian".to_string(),
            concurrency_hint: 2,
        },
        source_address: from,
    }
}

#[test]
fn accepts_a_new_well_tagged_peer() {
    let local = addr(192, 168, 0, 1);
    let mut registry = Registry::new(local);
    let peer = addr(192, 168, 0, 2);
    assert!(registry.accept(&envelope("WiTransfer", "Bob", "bobbox", peer)));
    assert_eq!(registry.list().len(), 1);
    let entry = registry.get(peer).expect("the peer must be listed");
    assert_eq!(entry.address, peer);
    assert_eq!(entry.label, "Bob - bobbox");
}

#[test]
fn duplicate_address_keeps_first_label_and_size() {
    let local = addr(192, 168, 0, 1);
    let mut registry = Registry::new(local);
    let peer = addr(192, 168, 0, 2);
    assert!(registry.accept(&envelope("WiTransfer", "Bob", "bobbox", peer)));
    // Same address again, different descriptor payload.
    assert!(!registry.accept(&envelope("WiTransfer", "Robert", "otherbox", peer)));
    assert_eq!(registry.list().len(), 1);
    let entry = registry.get(peer).expect("the peer must still be listed");
    assert_eq!(entry.label, "Bob - bobbox");
}

#[test]
fn own_address_is_never_admitted() {
    let local = addr(192, 168, 0, 1);
    let mut registry = Registry::new(local);
    assert!(!registry.accept(&envelope("WiTransfer", "Me", "myself", local)));
    assert_eq!(registry.list().len(), 0);
    assert!(registry.get(local).is_none());
}

#[test]
fn foreign_protocol_tag_is_dropped() {
    let local = addr(192, 168, 0, 1);
    let mut registry = Registry::new(local);
    let peer = addr(192, 168, 0, 2);
    assert!(!registry.accept(&envelope("SomethingElse", "Eve", "evebox", peer)));
    assert_eq!(registry.list().len(), 0);
    assert!(!registry.contains(peer));
}

#[test]
fn any_arrival_order_yields_the_same_table() {
    let local = addr(10, 0, 0, 1);
    let e1 = envelope("WiTransfer", "Bob", "bobbox", addr(10, 0, 0, 2));
    let e2 = envelope("WiTransfer", "Carol", "carolbox", addr(10, 0, 0, 3));
    let e3 = envelope("SomethingElse", "Eve", "evebox", addr(10, 0, 0, 4));
    let dup = envelope("WiTransfer", "Bob", "bobbox", addr(10, 0, 0, 2));

    let mut forward = Registry::new(local);
    for e in [&e1, &e2, &e3, &dup] {
        forward.accept(e);
    }
    let mut backward = Registry::new(local);
    for e in [&dup, &e3, &e2, &e1] {
        backward.accept(e);
    }

    assert_eq!(forward.list().len(), 2);
    assert_eq!(backward.list().len(), 2);
    for registry in [&forward, &backward] {
        assert_eq!(registry.get(addr(10, 0, 0, 2)).unwrap().label, "Bob - bobbox");
        assert_eq!(registry.get(addr(10, 0, 0, 3)).unwrap().label, "Carol - carolbox");
        assert!(registry.get(addr(10, 0, 0, 4)).is_none());
    }
}

#[test]
fn remove_takes_a_row_out_and_reports_missing_keys() {
    let local = addr(192, 168, 0, 1);
    let mut registry = Registry::new(local);
    let peer = addr(192, 168, 0, 2);
    registry.accept(&envelope("WiTransfer", "Bob", "bobbox", peer));
    let removed = registry.remove(peer).expect("the row must come back");
    assert_eq!(removed.address, peer);
    assert_eq!(removed.label, "Bob - bobbox");
    assert!(registry.get(peer).is_none());
    assert!(registry.remove(peer).is_none());
}

#[test]
fn a_batch_is_consumed_like_single_arrivals() {
    let local = addr(10, 0, 0, 1);
    let batch = vec![
        envelope("WiTransfer", "Bob", "bobbox", addr(10, 0, 0, 2)),
        envelope("WiTransfer", "Me", "myself", local),
        envelope("SomethingElse", "Eve", "evebox", addr(10, 0, 0, 4)),
        envelope("WiTransfer", "Robert", "otherbox", addr(10, 0, 0, 2)),
        envelope("WiTransfer", "Carol", "carolbox", addr(10, 0, 0, 3)),
    ];
    let mut registry = Registry::new(local);
    registry.accept_all(&batch);
    assert_eq!(registry.list().len(), 2);
    assert_eq!(registry.get(addr(10, 0, 0, 2)).unwrap().label, "Bob - bobbox");
    assert_eq!(registry.get(addr(10, 0, 0, 3)).unwrap().label, "Carol - carolbox");
    assert!(!registry.contains(local));
    assert!(!registry.contains(addr(10, 0, 0, 4)));
}

#[test]
fn contains_tracks_membership() {
    let local = addr(192, 168, 0, 1);
    let mut registry = Registry::new(local);
    let peer = addr(192, 168, 0, 2);
    assert!(!registry.contains(peer));
    registry.accept(&envelope("WiTransfer", "Bob", "bobbox", peer));
    assert!(registry.contains(peer));
    assert!(!registry.contains(addr(192, 168, 0, 9)));
}
