//! Attribute codec and vocabulary decoding against fixed byte fixtures.

use wgquery::tlv::{RawAttr, encode_attrs, decode_attrs};
use wgquery::resolve::resolve_family;
use wgquery::device::{decode_peer, decode_allowed_ips, decode_device};
use wgquery::WgError;

fn attr(tag: u16, value: Vec<u8>) -> RawAttr {
    RawAttr { tag, value }
}

fn assert_attrs_eq(a: &[RawAttr], b: &[RawAttr]) {
    assert_eq!(a.len(), b.len());
    for i in 0..a.len() {
        assert_eq!(a[i].tag, b[i].tag);
        assert_eq!(a[i].value, b[i].value);
    }
}

#[test]
fn round_trip_padding_and_empty() {
    // a one-byte value needs three padding bytes; an empty value none
    let attrs = vec![
        attr(1, vec![0xAA]),
        attr(2, vec![]),
        attr(3, vec![1, 2, 3, 4]),
        attr(4, vec![5, 6, 7, 8, 9]),
    ];
    let bytes = encode_attrs(&attrs);
    // record sizes: 8 (1 value + 3 pad), 4, 8, 12 (5 value + 3 pad)
    assert_eq!(bytes.len(), 32);
    let back = decode_attrs(&bytes).unwrap();
    assert_attrs_eq(&attrs, &back);
}

#[test]
fn round_trip_nested_tree() {
    let inner = vec![attr(2, vec![10, 0, 0, 0]), attr(3, vec![24])];
    let inner_bytes = encode_attrs(&inner);
    let outer = vec![attr(0x8000, inner_bytes.clone()), attr(7, vec![0xFF])];
    let bytes = encode_attrs(&outer);
    let back = decode_attrs(&bytes).unwrap();
    assert_attrs_eq(&outer, &back);
    let inner_back = decode_attrs(&back[0].value).unwrap();
    assert_attrs_eq(&inner, &inner_back);
}

#[test]
fn decode_rejects_record_past_end() {
    // declared record length 12, but only 8 bytes remain
    let bytes = vec![12, 0, 1, 0, 0xAA, 0xBB, 0xCC, 0xDD];
    assert_eq!(decode_attrs(&bytes), Err(WgError::Decode));
}

#[test]
fn decode_rejects_short_record_length() {
    // declared record length 2 is shorter than a record header
    let bytes = vec![2, 0, 1, 0];
    assert_eq!(decode_attrs(&bytes), Err(WgError::Decode));
}

#[test]
fn decode_rejects_truncated_header() {
    let bytes = vec![8, 0, 1];
    assert_eq!(decode_attrs(&bytes), Err(WgError::Decode));
}

#[test]
fn unknown_tags_are_retained() {
    let attrs = vec![attr(0x3000, vec![1, 2]), attr(1, vec![0x18, 0])];
    let bytes = encode_attrs(&attrs);
    let back = decode_attrs(&bytes).unwrap();
    assert_attrs_eq(&attrs, &back);
}

#[test]
fn final_record_may_lack_padding() {
    // one record of value length 1 with its padding cut off at the end
    let bytes = vec![5, 0, 9, 0, 0x7F];
    let back = decode_attrs(&bytes).unwrap();
    assert_eq!(back.len(), 1);
    assert_eq!(back[0].tag, 9);
    assert_eq!(back[0].value, vec![0x7F]);
}

fn ctrl_message(attrs: &Vec<RawAttr>) -> Vec<u8> {
    // generic envelope: command, version, two reserved bytes, then attrs
    let mut m = vec![1u8, 2u8, 0u8, 0u8];
    m.extend_from_slice(&encode_attrs(attrs));
    m
}

#[test]
fn family_resolution_is_idempotent() {
    let msgs = vec![
        ctrl_message(&vec![attr(2, b"wireguard\0".to_vec()), attr(1, vec![0x18, 0])]),
    ];
    let first = resolve_family(&msgs);
    let second = resolve_family(&msgs);
    assert_eq!(first, Ok(0x18));
    assert_eq!(second, Ok(0x18));
    assert_eq!(first, second);
}

#[test]
fn family_id_absent_is_resolution_failure() {
    let msgs = vec![ctrl_message(&vec![attr(2, b"wireguard\0".to_vec())])];
    assert_eq!(resolve_family(&msgs), Err(WgError::Resolution));
}

#[test]
fn family_id_wrong_width_is_decode_failure() {
    let msgs = vec![ctrl_message(&vec![attr(1, vec![0x18])])];
    assert_eq!(resolve_family(&msgs), Err(WgError::Decode));
}

#[test]
fn allowed_ip_missing_field_is_excluded() {
    // one well-formed 10.0.0.0/24 entry and one address-only entry
    let good = encode_attrs(&vec![attr(2, vec![10, 0, 0, 0]), attr(3, vec![24])]);
    let addr_only = encode_attrs(&vec![attr(2, vec![10, 0, 0, 1])]);
    let children = vec![attr(0, good), attr(1, addr_only)];
    let ips = decode_allowed_ips(&children).unwrap();
    assert_eq!(ips.len(), 1);
    assert_eq!(ips[0].addr, vec![10, 0, 0, 0]);
    assert_eq!(ips[0].cidr, 24);
}

#[test]
fn allowed_ip_cidr_only_is_excluded() {
    let cidr_only = encode_attrs(&vec![attr(3, vec![32])]);
    let children = vec![attr(0, cidr_only)];
    let ips = decode_allowed_ips(&children).unwrap();
    assert_eq!(ips.len(), 0);
}

#[test]
fn peer_decodes_endpoint_and_handshake() {
    // sockaddr_in: family 2, port 51820 big-endian, 203.0.113.5
    let mut sockaddr = vec![2u8, 0u8, 0xCA, 0x6C, 203, 0, 113, 5];
    sockaddr.extend_from_slice(&[0u8; 8]);
    let mut handshake = vec![0x10u8, 0, 0, 0, 0, 0, 0, 0];
    handshake.extend_from_slice(&[0u8; 8]);
    let key: Vec<u8> = (2..=33).collect();
    let attrs = vec![
        attr(1, key.clone()),
        attr(4, sockaddr),
        attr(5, vec![0x19, 0]),
        attr(6, handshake),
    ];
    let peer = decode_peer(&attrs).unwrap();
    assert_eq!(peer.public_key, Some(key));
    assert!(!peer.has_preshared_key);
    let ep = peer.endpoint.unwrap();
    assert!(!ep.v6);
    assert_eq!(ep.addr, vec![203, 0, 113, 5]);
    assert_eq!(ep.port, 51820);
    assert_eq!(peer.keepalive, Some(25));
    assert_eq!(peer.last_handshake, Some(16));
}

#[test]
fn peer_decodes_v6_endpoint() {
    // sockaddr_in6: family 10, port 51820 big-endian, flow info, address
    let mut sockaddr = vec![10u8, 0u8, 0xCA, 0x6C];
    sockaddr.extend_from_slice(&[0u8; 4]);
    let mut v6addr = vec![0x20u8, 0x01, 0x0d, 0xb8];
    v6addr.extend_from_slice(&[0u8; 11]);
    v6addr.push(1);
    sockaddr.extend_from_slice(&v6addr);
    sockaddr.extend_from_slice(&[0u8; 4]);
    assert_eq!(sockaddr.len(), 28);
    let peer = decode_peer(&vec![attr(4, sockaddr)]).unwrap();
    let ep = peer.endpoint.unwrap();
    assert!(ep.v6);
    assert_eq!(ep.addr, v6addr);
    assert_eq!(ep.port, 51820);
}

#[test]
fn endpoint_of_unknown_family_is_decode_failure() {
    let sockaddr = vec![7u8, 0u8, 0xCA, 0x6C, 1, 2, 3, 4, 0, 0, 0, 0, 0, 0, 0, 0];
    assert!(matches!(
        decode_peer(&vec![attr(4, sockaddr)]),
        Err(WgError::Decode)
    ));
}

#[test]
fn peer_bad_key_width_is_decode_failure() {
    let attrs = vec![attr(1, vec![1, 2, 3])];
    assert!(matches!(decode_peer(&attrs), Err(WgError::Decode)));
}

#[test]
fn device_snapshot_hides_secret_keys() {
    let private_key: Vec<u8> = (7..=38).collect();
    let attrs = vec![attr(2, b"wg0\0".to_vec()), attr(3, private_key)];
    let msg = {
        let mut m = vec![0u8, 1u8, 0u8, 0u8];
        m.extend_from_slice(&encode_attrs(&attrs));
        m
    };
    let snap = decode_device(&vec![msg]).unwrap();
    assert_eq!(snap.ifname, Some(b"wg0".to_vec()));
    assert!(snap.has_private_key);
    assert_eq!(snap.public_key, None);
}

#[test]
fn device_fwmark_and_port_decode() {
    let attrs = vec![attr(6, vec![0x6C, 0xCA]), attr(7, vec![1, 0, 1, 0])];
    let msg = {
        let mut m = vec![0u8, 1u8, 0u8, 0u8];
        m.extend_from_slice(&encode_attrs(&attrs));
        m
    };
    let snap = decode_device(&vec![msg]).unwrap();
    assert_eq!(snap.listen_port, Some(51820));
    assert_eq!(snap.fwmark, Some(0x0001_0001));
}
