use aetherlink::codec::{decode, encode, CodecError, MAX_MESSAGE_SIZE};
use aetherlink::tunnel::TunnelMessage;

fn same(a: &TunnelMessage, b: &TunnelMessage) -> bool {
    match (a, b) {
        (TunnelMessage::Register { domain: d1, port: n1 }, TunnelMessage::Register { domain: d2, port: n2 }) => d1 == d2 && n1 == n2,
        (TunnelMessage::Registered { domain: d1 }, TunnelMessage::Registered { domain: d2 }) => d1 == d2,
        (TunnelMessage::Unregister { domain: d1 }, TunnelMessage::Unregister { domain: d2 }) => d1 == d2,
        (TunnelMessage::Unregistered { domain: d1 }, TunnelMessage::Unregistered { domain: d2 }) => d1 == d2,
        (TunnelMessage::List, TunnelMessage::List) => true,
        (TunnelMessage::TunnelList { tunnels: t1 }, TunnelMessage::TunnelList { tunnels: t2 }) => t1 == t2,
        (TunnelMessage::Error { message: m1 }, TunnelMessage::Error { message: m2 }) => m1 == m2,
        (
            TunnelMessage::HttpRequest { method: m1, uri: u1, headers: h1, body: b1 },
            TunnelMessage::HttpRequest { method: m2, uri: u2, headers: h2, body: b2 },
        ) => m1 == m2 && u1 == u2 && h1 == h2 && b1 == b2,
        (
            TunnelMessage::HttpResponse { status: s1, headers: h1, body: b1 },
            TunnelMessage::HttpResponse { status: s2, headers: h2, body: b2 },
        ) => s1 == s2 && h1 == h2 && b1 == b2,
        _ => false,
    }
}

fn all_variants() -> Vec<TunnelMessage> {
    vec![
        TunnelMessage::Register { domain: "app.example.com".to_string(), port: 8080 },
        TunnelMessage::Registered { domain: "app.example.com".to_string() },
        TunnelMessage::Unregister { domain: "ünïcødé.example".to_string() },
        TunnelMessage::Unregistered { domain: String::new() },
        TunnelMessage::List,
        TunnelMessage::TunnelList { tunnels: vec!["a.com".to_string(), "b.com".to_string()] },
        TunnelMessage::TunnelList { tunnels: vec![] },
        TunnelMessage::Error { message: "Domain a.com is already in use".to_string() },
        TunnelMessage::HttpRequest {
            method: "GET".to_string(),
            uri: "/index.html".to_string(),
            headers: vec![("host".to_string(), "app.example.com".to_string()), ("accept".to_string(), "*/*".to_string())],
            body: vec![0, 1, 2, 255],
        },
        TunnelMessage::HttpResponse {
            status: 200,
            headers: vec![("content-type".to_string(), "text/plain".to_string())],
            body: b"hi".to_vec(),
        },
    ]
}

#[test]
fn round_trip_every_variant() {
    for m in all_variants() {
        let bytes = encode(&m).expect("fits");
        let back = decode(&bytes).expect("decodes");
        assert!(same(&m, &back));
    }
}

#[test]
fn encoding_of_register_is_exact() {
    let m = TunnelMessage::Register { domain: "ab".to_string(), port: 0x1f90 };
    assert_eq!(encode(&m).unwrap(), vec![0, 0, 0, 0, 2, b'a', b'b', 0x1f, 0x90]);
}

#[test]
fn encoding_of_list_is_one_byte() {
    assert_eq!(encode(&TunnelMessage::List).unwrap(), vec![4]);
}

#[test]
fn decode_empty_is_malformed() {
    assert_eq!(decode(&[]).err(), Some(CodecError::Malformed));
}

#[test]
fn decode_unknown_tag_is_malformed() {
    assert_eq!(decode(&[9]).err(), Some(CodecError::Malformed));
}

#[test]
fn decode_trailing_bytes_is_malformed() {
    assert_eq!(decode(&[4, 0]).err(), Some(CodecError::Malformed));
}

#[test]
fn decode_truncated_is_malformed() {
    assert_eq!(decode(&[1, 0, 0, 0, 5, b'a']).err(), Some(CodecError::Malformed));
}

#[test]
fn decode_invalid_utf8_is_malformed() {
    assert_eq!(decode(&[1, 0, 0, 0, 2, 0xc3, 0x28]).err(), Some(CodecError::Malformed));
}

#[test]
fn decode_valid_utf8_text() {
    let back = decode(&[1, 0, 0, 0, 2, 0xc3, 0xa9]).unwrap();
    assert!(same(&back, &TunnelMessage::Registered { domain: "é".to_string() }));
}

#[test]
fn decode_oversized_is_too_large() {
    let big = vec![4u8; MAX_MESSAGE_SIZE + 1];
    assert_eq!(decode(&big).err(), Some(CodecError::TooLarge));
}

#[test]
fn encode_oversized_is_too_large() {
    let m = TunnelMessage::HttpResponse { status: 200, headers: vec![], body: vec![7u8; MAX_MESSAGE_SIZE] };
    assert_eq!(encode(&m).err(), Some(CodecError::TooLarge));
}

#[test]
fn encode_largest_that_fits() {
    // tag + status + header count + body length prefix = 11 bytes of framing
    let m = TunnelMessage::HttpResponse { status: 200, headers: vec![], body: vec![7u8; MAX_MESSAGE_SIZE - 11] };
    let bytes = encode(&m).unwrap();
    assert_eq!(bytes.len(), MAX_MESSAGE_SIZE);
    assert!(same(&decode(&bytes).unwrap(), &m));
}
