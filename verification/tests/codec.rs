use witransfer::address::Ipv4Address;
use witransfer::codec::{decode, encode};
use witransfer::descriptor::{DeviceDescriptor, Envelope};

fn sample_descriptor() -> DeviceDescriptor {
    DeviceDescriptor {
        display_name: "Alice".to_string(),
        user_name: "alice".to_string(),
        host_name: "alice-laptop".to_string(),
        platform: "Linux".to_string(),
        distro: "Debian GNU/Linux 12".to_string(),
        concurrency_hint: 8,
    }
}

fn sample_envelope() -> Envelope {
    Envelope {
        protocol_tag: "WiTransfer".to_string(),
        descriptor: sample_descriptor(),
        source_address: Ipv4Address { o0: 192, o1: 168, o2: 0, o3: 7 },
    }
}

#[test]
fn encode_produces_canonical_record() {
    let payload = encode(&sample_envelope());
    assert_eq!(
        payload,
        "{\"identifier\":\"WiTransfer\",\"device_info\":{\"real_name\":\"Alice\",\
         \"user_name\":\"alice\",\"device_name\":\"alice-laptop\",\"platform\":\"Linux\",\
         \"distro\":\"Debian GNU/Linux 12\"},\"ip_addr\":\"192.168.0.7\",\"max_threads\":8}"

    );
}

#[test]
fn encode_then_decode_gives_envelope_back() {
    let envelope = sample_envelope();
    let payload = encode(&envelope);
    let back = decode(payload.as_str()).expect("canonical payload must decode");
    assert_eq!(back.protocol_tag, envelope.protocol_tag);
    assert_eq!(back.descriptor.display_name, envelope.descriptor.display_name);
    assert_eq!(back.descriptor.user_name, envelope.descriptor.user_name);
    assert_eq!(back.descriptor.host_name, envelope.descriptor.host_name);
    assert_eq!(back.descriptor.platform, envelope.descriptor.platform);
    assert_eq!(back.descriptor.distro, envelope.descriptor.distro);
    assert_eq!(back.descriptor.concurrency_hint, envelope.descriptor.concurrency_hint);
    assert_eq!(back.source_address, envelope.source_address);
}

#[test]
fn round_trip_escapes_quotes_and_backslashes() {
    let mut envelope = sample_envelope();
    envelope.descriptor.display_name = "Al \"ice\" \\ the first".to_string();
    envelope.descriptor.host_name = "host\\name".to_string();
    let payload = encode(&envelope);
    let back = decode(payload.as_str()).expect("escaped payload must decode");
    assert_eq!(back.descriptor.display_name, "Al \"ice\" \\ the first");
    assert_eq!(back.descriptor.host_name, "host\\name");
}

#[test]
fn decode_accepts_handwritten_record() {
    let payload = "{\"identifier\":\"WiTransfer\",\"device_info\":{\"real_name\":\"Bob\",\
                   \"user_name\":\"bob\",\"device_name\":\"bobbox\",\"platform\":\"Linux\",\
                   \"distro\":\"Arch\"},\"ip_addr\":\"10.0.0.3\",\"max_threads\":4}";
    let envelope = decode(payload).expect("handwritten record must decode");
    assert_eq!(envelope.protocol_tag, "WiTransfer");
    assert_eq!(envelope.descriptor.display_name, "Bob");
    assert_eq!(envelope.source_address, Ipv4Address { o0: 10, o1: 0, o2: 0, o3: 3 });
    assert_eq!(envelope.descriptor.concurrency_hint, 4);
}

#[test]
fn decode_keeps_foreign_tags_for_the_registry_to_drop() {
    let payload = "{\"identifier\":\"SomethingElse\",\"device_info\":{\"real_name\":\"Eve\",\
                   \"user_name\":\"eve\",\"device_name\":\"evebox\",\"platform\":\"Linux\",\
                   \"distro\":\"Void\"},\"ip_addr\":\"10.0.0.9\",\"max_threads\":1}";
    let envelope = decode(payload).expect("a foreign tag is still a well-formed record");
    assert_eq!(envelope.protocol_tag, "SomethingElse");
}

#[test]
fn decode_rejects_truncated_payload() {
    let payload = encode(&sample_envelope());
    let cut = &payload[..payload.len() - 5];
    assert!(decode(cut).is_err());
}

#[test]
fn decode_rejects_garbage() {
    assert!(decode("").is_err());
    assert!(decode("hello world").is_err());
    assert!(decode("{\"identifier\":42}").is_err());
    assert!(decode("{}").is_err());
}

#[test]
fn decode_rejects_foreign_schema() {
    let payload = "{\"name\":\"WiTransfer\",\"addr\":\"10.0.0.3\"}";
    assert!(decode(payload).is_err());
}

#[test]
fn decode_rejects_zero_max_threads() {
    let payload = "{\"identifier\":\"WiTransfer\",\"device_info\":{\"real_name\":\"Bob\",\
                   \"user_name\":\"bob\",\"device_name\":\"bobbox\",\"platform\":\"Linux\",\
                   \"distro\":\"Arch\"},\"ip_addr\":\"10.0.0.3\",\"max_threads\":0}";
    assert!(decode(payload).is_err());
}

#[test]
fn decode_rejects_bad_addresses() {
    for bad in ["10.0.0", "10.0.0.256", "10..0.3", "a.b.c.d", "10.0.0.3.4", ""] {
        let payload = format!(
            "{{\"identifier\":\"WiTransfer\",\"device_info\":{{\"real_name\":\"Bob\",\
             \"user_name\":\"bob\",\"device_name\":\"bobbox\",\"platform\":\"Linux\",\
             \"distro\":\"Arch\"}},\"ip_addr\":\"{}\",\"max_threads\":4}}",
            bad
        );
        assert!(decode(payload.as_str()).is_err(), "{} must be rejected", bad);
    }
}

#[test]
fn decode_rejects_trailing_noise() {
    let mut payload = encode(&sample_envelope());
    payload.push(' ');
    assert!(decode(payload.as_str()).is_err());
}

#[test]
fn encode_writes_address_and_hint_in_decimal() {
    let envelope = Envelope {
        protocol_tag: "WiTransfer".to_string(),
        descriptor: DeviceDescriptor {
            display_name: "D".to_string(),
            user_name: "u".to_string(),
            host_name: "h".to_string(),
            platform: "p".to_string(),
            distro: "x".to_string(),
            concurrency_hint: 255,
        },
        source_address: Ipv4Address { o0: 0, o1: 1, o2: 10, o3: 255 },
    };
    let payload = encode(&envelope);
    assert!(payload.contains("\"ip_addr\":\"0.1.10.255\""));
    assert!(payload.ends_with("\"max_threads\":255}"));
}
