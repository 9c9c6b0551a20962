//! The envelope codec: the outer message header (length, type, flags,
//! sequence number, port id) and the generic-family header (command,
//! version) around an encoded attribute tree.

use vstd::prelude::*;

use crate::bytes::{le16, le32, u16_le, u32_le, read_u16, read_u32, push_u16, push_u32};
use crate::tlv::{RawAttr, AttrModel, attrs_model, attrs_wf, spec_encode_attrs, encode_attrs};

verus! {

/// Size of the outer message header.
pub const NLMSG_HDRLEN: usize = 16;

/// Size of the generic-family header that follows it.
pub const GENL_HDRLEN: usize = 4;

/// Control-flow sentinel message types of the outer transport.
pub const NLMSG_NOOP: u16 = 1;

pub const NLMSG_ERROR: u16 = 2;

pub const NLMSG_DONE: u16 = 3;

pub const NLMSG_OVERRUN: u16 = 4;

/// Message types below this value are reserved for the sentinels above;
/// every real family id is at least this large.
pub const NLMSG_MIN_TYPE: u16 = 16;

/// The fixed id of the control family used to resolve named families.
pub const GENL_ID_CTRL: u16 = 16;

/// Outer header flag bits.
pub const NLM_F_REQUEST: u16 = 1;

pub const NLM_F_ACK: u16 = 4;

pub const NLM_F_DUMP: u16 = 0x300;

/// The outer message header.
#[derive(Clone, Copy, Debug, PartialEq, Eq, Structural)]
pub struct NlHeader {
    pub len: u32,
    pub ty: u16,
    pub flags: u16,
    pub seq: u32,
    pub pid: u32,
}

/// The sixteen bytes of an outer header.
pub open spec fn spec_header_bytes(h: NlHeader) -> Seq<u8> {
    u32_le(h.len) + u16_le(h.ty) + u16_le(h.flags) + u32_le(h.seq) + u32_le(h.pid)
}

/// The outer header read from the first sixteen bytes of a buffer.
pub open spec fn spec_parse_header(b: Seq<u8>) -> NlHeader
    recommends
        b.len() >= 16,
{
    NlHeader {
        len: le32(b[0], b[1], b[2], b[3]),
        ty: le16(b[4], b[5]),
        flags: le16(b[6], b[7]),
        seq: le32(b[8], b[9], b[10], b[11]),
        pid: le32(b[12], b[13], b[14], b[15]),
    }
}

/// Parsing the bytes written for a header gives the header back.
pub proof fn lemma_header_round_trip(h: NlHeader)
    ensures
        spec_parse_header(spec_header_bytes(h)) == h,
{
    crate::bytes::lemma_le32_round_trip(h.len);
    crate::bytes::lemma_le16_round_trip(h.ty);
    crate::bytes::lemma_le16_round_trip(h.flags);
    crate::bytes::lemma_le32_round_trip(h.seq);
    crate::bytes::lemma_le32_round_trip(h.pid);
}

/// Reads the outer header at `off`.
pub fn parse_header(b: &[u8], off: usize) -> (h: NlHeader)
    requires
        off + 16 <= b@.len(),
    ensures
        h == spec_parse_header(b@.skip(off as int)),
{
    let n = b.len();
    assert(off + 16 <= n);
    let len = read_u32(b, off);
    let ty = read_u16(b, off + 4);
    let flags = read_u16(b, off + 6);
    let seq = read_u32(b, off + 8);
    let pid = read_u32(b, off + 12);
    proof {
        let t = b@.skip(off as int);
        assert(forall|i: int| 0 <= i < 16 ==> t[i] == b@[off + i]);
    }
    NlHeader { len, ty, flags, seq, pid }
}

/// The generic-family payload: command, version, two reserved bytes,
/// then the encoded attribute tree.
pub open spec fn spec_genl_payload(cmd: u8, version: u8, attrs: Seq<AttrModel>) -> Seq<u8> {
    seq![cmd, version, 0u8, 0u8] + spec_encode_attrs(attrs)
}

/// One full outer message around a generic-family payload.  The header's
/// length field is the serialized size of the whole message.
pub open spec fn spec_message(
    ty: u16,
    flags: u16,
    seq: u32,
    cmd: u8,
    version: u8,
    attrs: Seq<AttrModel>,
) -> Seq<u8> {
    spec_header_bytes(
        NlHeader {
            len: (16 + spec_genl_payload(cmd, version, attrs).len()) as u32,
            ty,
            flags,
            seq,
            pid: 0,
        },
    ) + spec_genl_payload(cmd, version, attrs)
}

/// Builds one request message.  The outer length field is computed from
/// the serialized payload, never estimated, so the framing invariant that
/// the declared length equals the serialized size holds by construction.
pub fn build_message(
    ty: u16,
    flags: u16,
    seq: u32,
    cmd: u8,
    version: u8,
    attrs: &Vec<RawAttr>,
) -> (r: Vec<u8>)
    requires
        attrs_wf(attrs_model(attrs@)),
        spec_encode_attrs(attrs_model(attrs@)).len() <= 0xFFFF_FFDF,
    ensures
        r@ == spec_message(ty, flags, seq, cmd, version, attrs_model(attrs@)),
        r@.len() >= 20,
        spec_parse_header(r@).len == r@.len(),
        spec_parse_header(r@).ty == ty,
{
    let mut enc = encode_attrs(attrs);
    let total: usize = 20 + enc.len();
    let mut out: Vec<u8> = Vec::new();
    push_u32(&mut out, total as u32);
    push_u16(&mut out, ty);
    push_u16(&mut out, flags);
    push_u32(&mut out, seq);
    push_u32(&mut out, 0);
    out.push(cmd);
    out.push(version);
    out.push(0u8);
    out.push(0u8);
    let ghost head = out@;
    out.append(&mut enc);
    proof {
        let m = attrs_model(attrs@);
        let h = NlHeader {
            len: (16 + spec_genl_payload(cmd, version, m).len()) as u32,
            ty,
            flags,
            seq,
            pid: 0,
        };
        assert(total as u32 == h.len);
        assert(out@ =~= spec_message(ty, flags, seq, cmd, version, m));
        lemma_header_round_trip(h);
        assert(forall|i: int|
            0 <= i < 16 ==> out@[i] == #[trigger] spec_header_bytes(h)[i]);
        assert(spec_parse_header(out@) == spec_parse_header(spec_header_bytes(h)));
    }
    out
}

} // verus!
