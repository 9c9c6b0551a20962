//! The two-phase transaction against synthetic kernel responses:
//! request bytes, multipart reassembly, termination and error frames.

use wgquery::tlv::RawAttr;
use wgquery::tlv::encode_attrs;
use wgquery::frame::build_message;
use wgquery::reasm::Reassembly;
use wgquery::engine::Transaction;
use wgquery::WgError;

fn attr(tag: u16, value: Vec<u8>) -> RawAttr {
    RawAttr { tag, value }
}

fn le32(x: u32) -> [u8; 4] {
    [(x & 0xFF) as u8, ((x >> 8) & 0xFF) as u8, ((x >> 16) & 0xFF) as u8, (x >> 24) as u8]
}

fn le16(x: u16) -> [u8; 2] {
    [(x & 0xFF) as u8, (x >> 8) as u8]
}

fn nl_header(len: u32, ty: u16, flags: u16, seq: u32, pid: u32) -> Vec<u8> {
    let mut h = Vec::new();
    h.extend_from_slice(&le32(len));
    h.extend_from_slice(&le16(ty));
    h.extend_from_slice(&le16(flags));
    h.extend_from_slice(&le32(seq));
    h.extend_from_slice(&le32(pid));
    h
}

fn done_frame(seq: u32) -> Vec<u8> {
    let mut f = nl_header(20, 3, 2, seq, 0);
    f.extend_from_slice(&le32(0));
    f
}

fn error_frame(code: u32, seq: u32) -> Vec<u8> {
    let mut f = nl_header(20, 2, 0, seq, 0);
    f.extend_from_slice(&le32(code));
    f
}

fn ctrl_response(seq: u32) -> Vec<u8> {
    build_message(
        16,
        2,
        seq,
        1,
        2,
        &vec![attr(2, b"wireguard\0".to_vec()), attr(1, vec![0x18, 0])],
    )
}

#[test]
fn family_request_bytes_are_exact() {
    let mut tx = Transaction::new(b"wg0".to_vec());
    let req = tx.take_request().unwrap();
    let mut expected = nl_header(36, 16, 5, 1, 0);
    expected.extend_from_slice(&[3, 2, 0, 0]);
    expected.extend_from_slice(&[14, 0, 2, 0]);
    expected.extend_from_slice(b"wireguard\0");
    expected.extend_from_slice(&[0, 0]);
    assert_eq!(req, expected);
}

#[test]
fn device_request_bytes_are_exact() {
    let mut tx = Transaction::new(b"wg0".to_vec());
    tx.take_request().unwrap();
    let mut dgram = ctrl_response(1);
    dgram.extend_from_slice(&done_frame(1));
    tx.on_datagram(&dgram).unwrap();
    let req = tx.take_request().unwrap();
    let mut expected = nl_header(28, 0x18, 0x305, 2, 0);
    expected.extend_from_slice(&[0, 1, 0, 0]);
    expected.extend_from_slice(&[8, 0, 2, 0]);
    expected.extend_from_slice(b"wg0\0");
    assert_eq!(req, expected);
}

fn device_message(attrs: &Vec<RawAttr>, seq: u32) -> Vec<u8> {
    build_message(0x18, 2, seq, 0, 1, attrs)
}

#[test]
fn multipart_split_equals_single_datagram() {
    let f1 = device_message(&vec![attr(2, b"wg0\0".to_vec())], 2);
    let f2 = device_message(&vec![attr(6, vec![0x6C, 0xCA])], 2);
    let f3 = done_frame(2);

    let mut single = Reassembly::new();
    let mut joined = f1.clone();
    joined.extend_from_slice(&f2);
    joined.extend_from_slice(&f3);
    single.push_datagram(0x18, &joined).unwrap();

    let mut split = Reassembly::new();
    split.push_datagram(0x18, &f1).unwrap();
    split.push_datagram(0x18, &f2).unwrap();
    split.push_datagram(0x18, &f3).unwrap();

    assert!(single.finished);
    assert!(split.finished);
    assert_eq!(single.msgs, split.msgs);
    assert_eq!(single.msgs.len(), 2);
}

#[test]
fn zero_length_frame_ends_the_batch() {
    let f1 = device_message(&vec![attr(2, b"wg0\0".to_vec())], 2);
    let mut dgram = f1.clone();
    dgram.extend_from_slice(&nl_header(0, 0x18, 0, 2, 0));
    dgram.extend_from_slice(&[0xEE; 12]);
    let mut r = Reassembly::new();
    r.push_datagram(0x18, &dgram).unwrap();
    assert!(!r.finished);
    assert_eq!(r.msgs.len(), 1);
}

#[test]
fn noop_frames_are_skipped() {
    let mut dgram = nl_header(16, 1, 0, 2, 0);
    dgram.extend_from_slice(&device_message(&vec![attr(2, b"wg0\0".to_vec())], 2));
    dgram.extend_from_slice(&done_frame(2));
    let mut r = Reassembly::new();
    r.push_datagram(0x18, &dgram).unwrap();
    assert!(r.finished);
    assert_eq!(r.msgs.len(), 1);
}

#[test]
fn snapshot_merges_across_messages() {
    let f1 = device_message(&vec![attr(2, b"wg0\0".to_vec())], 2);
    let f2 = device_message(&vec![attr(6, vec![0x6C, 0xCA])], 2);
    let mut tx = Transaction::new(b"wg0".to_vec());
    tx.take_request().unwrap();
    let mut dgram = ctrl_response(1);
    dgram.extend_from_slice(&done_frame(1));
    tx.on_datagram(&dgram).unwrap();
    tx.take_request().unwrap();
    let mut reply = f1.clone();
    reply.extend_from_slice(&f2);
    reply.extend_from_slice(&done_frame(2));
    tx.on_datagram(&reply).unwrap();
    let snap = tx.into_result().unwrap();
    assert_eq!(snap.ifname, Some(b"wg0".to_vec()));
    assert_eq!(snap.listen_port, Some(51820));
}

#[test]
fn frame_longer_than_datagram_is_framing_error() {
    let mut dgram = nl_header(64, 0x18, 0, 2, 0);
    dgram.extend_from_slice(&[0; 8]);
    let mut r = Reassembly::new();
    assert_eq!(r.push_datagram(0x18, &dgram), Err(WgError::Framing));
}

#[test]
fn wrong_family_in_reply_is_mismatch() {
    let foreign = build_message(0x19, 2, 2, 0, 1, &vec![]);
    let mut r = Reassembly::new();
    assert_eq!(r.push_datagram(0x18, &foreign), Err(WgError::Mismatch));
}

#[test]
fn nonzero_error_code_fails_the_transaction() {
    let mut tx = Transaction::new(b"wg0".to_vec());
    tx.take_request().unwrap();
    let mut dgram = ctrl_response(1);
    dgram.extend_from_slice(&done_frame(1));
    tx.on_datagram(&dgram).unwrap();
    tx.take_request().unwrap();
    let err = tx.on_datagram(&error_frame(0xFFFF_FFEA, 2)).unwrap_err();
    assert_eq!(err, WgError::Protocol(0xFFFF_FFEA));
    assert!(!tx.is_active());
    assert_eq!(tx.into_result().unwrap_err(), WgError::Protocol(0xFFFF_FFEA));
}

#[test]
fn zero_error_code_completes_with_nothing_accumulated() {
    let mut tx = Transaction::new(b"wg0".to_vec());
    tx.take_request().unwrap();
    let mut dgram = ctrl_response(1);
    dgram.extend_from_slice(&done_frame(1));
    tx.on_datagram(&dgram).unwrap();
    tx.take_request().unwrap();
    tx.on_datagram(&error_frame(0, 2)).unwrap();
    assert!(!tx.is_active());
    let snap = tx.into_result().unwrap();
    assert_eq!(snap.ifname, None);
    assert_eq!(snap.public_key, None);
    assert_eq!(snap.peers.len(), 0);
}

#[test]
fn resolution_without_family_id_fails() {
    let mut tx = Transaction::new(b"wg0".to_vec());
    tx.take_request().unwrap();
    let reply = build_message(16, 2, 1, 1, 2, &vec![attr(2, b"wireguard\0".to_vec())]);
    let mut dgram = reply;
    dgram.extend_from_slice(&done_frame(1));
    let err = tx.on_datagram(&dgram).unwrap_err();
    assert_eq!(err, WgError::Resolution);
}

fn wg0_fixture_response() -> Vec<u8> {
    // one device: wg0, public key 0x01..0x20, port 51820, one peer with
    // public key 0x02..0x21, endpoint 203.0.113.5:51820, allowed 0.0.0.0/0
    let device_key: Vec<u8> = (1..=32).collect();
    let peer_key: Vec<u8> = (2..=33).collect();
    let mut sockaddr = vec![2u8, 0u8, 0xCA, 0x6C, 203, 0, 113, 5];
    sockaddr.extend_from_slice(&[0u8; 8]);
    let entry = encode_attrs(&vec![attr(2, vec![0, 0, 0, 0]), attr(3, vec![0])]);
    let allowed = encode_attrs(&vec![attr(0x8000, entry)]);
    let peer_attrs = encode_attrs(&vec![
        attr(1, peer_key),
        attr(4, sockaddr),
        attr(9 | 0x8000, allowed),
    ]);
    let device_attrs = vec![
        attr(2, b"wg0\0".to_vec()),
        attr(4, device_key),
        attr(6, vec![0x6C, 0xCA]),
        attr(8 | 0x8000, encode_attrs(&vec![attr(0x8000, peer_attrs)])),
    ];
    device_message(&device_attrs, 2)
}

#[test]
fn end_to_end_wg0_snapshot() {
    let mut tx = Transaction::new(b"wg0".to_vec());
    tx.take_request().unwrap();
    let mut dgram = ctrl_response(1);
    dgram.extend_from_slice(&done_frame(1));
    tx.on_datagram(&dgram).unwrap();
    tx.take_request().unwrap();
    let mut reply = wg0_fixture_response();
    reply.extend_from_slice(&done_frame(2));
    tx.on_datagram(&reply).unwrap();
    assert!(!tx.is_active());
    let snap = tx.into_result().unwrap();

    assert_eq!(snap.ifname, Some(b"wg0".to_vec()));
    assert_eq!(snap.public_key, Some((1..=32).collect::<Vec<u8>>()));
    assert!(!snap.has_private_key);
    assert_eq!(snap.listen_port, Some(51820));
    assert_eq!(snap.fwmark, None);
    assert_eq!(snap.peers.len(), 1);
    let peer = &snap.peers[0];
    assert_eq!(peer.public_key, Some((2..=33).collect::<Vec<u8>>()));
    assert!(!peer.has_preshared_key);
    let ep = peer.endpoint.as_ref().unwrap();
    assert!(!ep.v6);
    assert_eq!(ep.addr, vec![203, 0, 113, 5]);
    assert_eq!(ep.port, 51820);
    assert_eq!(peer.allowed_ips.len(), 1);
    assert_eq!(peer.allowed_ips[0].addr, vec![0, 0, 0, 0]);
    assert_eq!(peer.allowed_ips[0].cidr, 0);
    assert_eq!(peer.keepalive, None);
    assert_eq!(peer.last_handshake, None);
}

#[test]
fn end_to_end_multipart_equals_single() {
    let run = |split: bool| {
        let mut tx = Transaction::new(b"wg0".to_vec());
        tx.take_request().unwrap();
        let mut dgram = ctrl_response(1);
        dgram.extend_from_slice(&done_frame(1));
        tx.on_datagram(&dgram).unwrap();
        tx.take_request().unwrap();
        let body = wg0_fixture_response();
        if split {
            tx.on_datagram(&body).unwrap();
            tx.on_datagram(&done_frame(2)).unwrap();
        } else {
            let mut joined = body.clone();
            joined.extend_from_slice(&done_frame(2));
            tx.on_datagram(&joined).unwrap();
        }
        tx.into_result().unwrap()
    };
    let a = run(true);
    let b = run(false);
    assert_eq!(a.ifname, b.ifname);
    assert_eq!(a.public_key, b.public_key);
    assert_eq!(a.listen_port, b.listen_port);
    assert_eq!(a.peers.len(), b.peers.len());
    assert_eq!(a.peers[0].public_key, b.peers[0].public_key);
    assert_eq!(a.peers[0].allowed_ips.len(), b.peers[0].allowed_ips.len());
}
