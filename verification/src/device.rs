//! The device vocabulary: decoding the accumulated inner messages of a
//! device query into a point-in-time snapshot — the device's identity,
//! keys, port, and its peers with their allowed address ranges.  Key
//! material other than public keys is never stored: only its presence.

use vstd::prelude::*;

use crate::bytes::{le16, le64, copy_range};
use crate::tlv::{RawAttr, AttrModel, attrs_model, spec_decode_attrs, decode_attrs};
use crate::resolve::{spec_tag_of, tag_of};
use crate::reasm::msgs_model;
use crate::WgError;

verus! {

/// Command that dumps one device's configuration and runtime state.
pub const WG_CMD_GET_DEVICE: u8 = 0;

/// Protocol version of the device family.
pub const WG_GENL_VERSION: u8 = 1;

/// Device attribute tags.
pub const WGDEVICE_A_IFNAME: u16 = 2;

pub const WGDEVICE_A_PRIVATE_KEY: u16 = 3;

pub const WGDEVICE_A_PUBLIC_KEY: u16 = 4;

pub const WGDEVICE_A_LISTEN_PORT: u16 = 6;

pub const WGDEVICE_A_FWMARK: u16 = 7;

pub const WGDEVICE_A_PEERS: u16 = 8;

/// Peer attribute tags.
pub const WGPEER_A_PUBLIC_KEY: u16 = 1;

pub const WGPEER_A_PRESHARED_KEY: u16 = 2;

pub const WGPEER_A_ENDPOINT: u16 = 4;

pub const WGPEER_A_PERSISTENT_KEEPALIVE: u16 = 5;

pub const WGPEER_A_LAST_HANDSHAKE: u16 = 6;

pub const WGPEER_A_ALLOWEDIPS: u16 = 9;

/// Allowed-IP attribute tags.
pub const WGALLOWEDIP_A_IPADDR: u16 = 2;

pub const WGALLOWEDIP_A_CIDR: u16 = 3;

/// Address families of an endpoint's socket address.
pub const AF_INET: u16 = 2;

pub const AF_INET6: u16 = 10;

/// Length of a public or preshared key.
pub const KEY_LEN: usize = 32;

/// One address range a peer may use: an address (four or sixteen bytes)
/// and a prefix length.
#[derive(Debug)]
pub struct AllowedIp {
    pub addr: Vec<u8>,
    pub cidr: u8,
}

pub struct AllowedIpModel {
    pub addr: Seq<u8>,
    pub cidr: u8,
}

impl View for AllowedIp {
    type V = AllowedIpModel;

    open spec fn view(&self) -> AllowedIpModel {
        AllowedIpModel { addr: self.addr@, cidr: self.cidr }
    }
}

pub open spec fn aips_model(s: Seq<AllowedIp>) -> Seq<AllowedIpModel> {
    s.map_values(|x: AllowedIp| x@)
}

/// A peer's remote socket address: the address bytes and the port.
#[derive(Debug)]
pub struct Endpoint {
    pub v6: bool,
    pub addr: Vec<u8>,
    pub port: u16,
}

pub struct EndpointModel {
    pub v6: bool,
    pub addr: Seq<u8>,
    pub port: u16,
}

impl View for Endpoint {
    type V = EndpointModel;

    open spec fn view(&self) -> EndpointModel {
        EndpointModel { v6: self.v6, addr: self.addr@, port: self.port }
    }
}

pub open spec fn opt_bytes(o: Option<Vec<u8>>) -> Option<Seq<u8>> {
    match o {
        Some(v) => Some(v@),
        None => None,
    }
}

pub open spec fn opt_ep(o: Option<Endpoint>) -> Option<EndpointModel> {
    match o {
        Some(e) => Some(e@),
        None => None,
    }
}

/// One decoded peer.  The preshared key is opaque: only its presence is
/// recorded, the bytes are never surfaced.
#[derive(Debug)]
pub struct Peer {
    pub public_key: Option<Vec<u8>>,
    pub has_preshared_key: bool,
    pub endpoint: Option<Endpoint>,
    pub allowed_ips: Vec<AllowedIp>,
    pub keepalive: Option<u16>,
    pub last_handshake: Option<u64>,
}

pub struct PeerModel {
    pub public_key: Option<Seq<u8>>,
    pub has_preshared_key: bool,
    pub endpoint: Option<EndpointModel>,
    pub allowed_ips: Seq<AllowedIpModel>,
    pub keepalive: Option<u16>,
    pub last_handshake: Option<u64>,
}

impl View for Peer {
    type V = PeerModel;

    open spec fn view(&self) -> PeerModel {
        PeerModel {
            public_key: opt_bytes(self.public_key),
            has_preshared_key: self.has_preshared_key,
            endpoint: opt_ep(self.endpoint),
            allowed_ips: aips_model(self.allowed_ips@),
            keepalive: self.keepalive,
            last_handshake: self.last_handshake,
        }
    }
}

pub open spec fn peers_model(s: Seq<Peer>) -> Seq<PeerModel> {
    s.map_values(|x: Peer| x@)
}

/// The decoded snapshot of one device, built fresh from one response.
/// The private key is opaque: only its presence is recorded.
#[derive(Debug)]
pub struct DeviceSnapshot {
    pub ifname: Option<Vec<u8>>,
    pub public_key: Option<Vec<u8>>,
    pub has_private_key: bool,
    pub listen_port: Option<u16>,
    pub fwmark: Option<u32>,
    pub peers: Vec<Peer>,
}

pub struct SnapshotModel {
    pub ifname: Option<Seq<u8>>,
    pub public_key: Option<Seq<u8>>,
    pub has_private_key: bool,
    pub listen_port: Option<u16>,
    pub fwmark: Option<u32>,
    pub peers: Seq<PeerModel>,
}

impl View for DeviceSnapshot {
    type V = SnapshotModel;

    open spec fn view(&self) -> SnapshotModel {
        SnapshotModel {
            ifname: opt_bytes(self.ifname),
            public_key: opt_bytes(self.public_key),
            has_private_key: self.has_private_key,
            listen_port: self.listen_port,
            fwmark: self.fwmark,
            peers: peers_model(self.peers@),
        }
    }
}

/// A peer with nothing seen yet.
pub open spec fn spec_empty_peer() -> PeerModel {
    PeerModel {
        public_key: None,
        has_preshared_key: false,
        endpoint: None,
        allowed_ips: Seq::empty(),
        keepalive: None,
        last_handshake: None,
    }
}

/// A snapshot with nothing seen yet.
pub open spec fn spec_empty_snapshot() -> SnapshotModel {
    SnapshotModel {
        ifname: None,
        public_key: None,
        has_private_key: false,
        listen_port: None,
        fwmark: None,
        peers: Seq::empty(),
    }
}

/// The 16-bit value read from two big-endian bytes (an endpoint port).
pub open spec fn be16(b0: u8, b1: u8) -> u16 {
    (256 * b0 + b1) as u16
}

/// An endpoint decoded from its socket-address bytes: either the IPv4 or
/// the IPv6 layout, with the port in network byte order; anything else
/// is malformed.
pub open spec fn spec_endpoint(v: Seq<u8>) -> Result<EndpointModel, WgError> {
    if v.len() == 16 && le16(v[0], v[1]) == AF_INET {
        Ok(EndpointModel { v6: false, addr: v.subrange(4, 8), port: be16(v[2], v[3]) })
    } else if v.len() == 28 && le16(v[0], v[1]) == AF_INET6 {
        Ok(EndpointModel { v6: true, addr: v.subrange(8, 24), port: be16(v[2], v[3]) })
    } else {
        Err(WgError::Decode)
    }
}

/// What one allowed-IP attribute does to the (address, prefix) pair seen
/// so far inside one entry; later occurrences win, unknown tags change
/// nothing, a known tag of the wrong width is malformed.
pub open spec fn spec_aip_step(
    st: (Option<Seq<u8>>, Option<u8>),
    a: AttrModel,
) -> Result<(Option<Seq<u8>>, Option<u8>), WgError> {
    let t = spec_tag_of(a.tag);
    if t == WGALLOWEDIP_A_IPADDR {
        if a.value.len() == 4 || a.value.len() == 16 {
            Ok((Some(a.value), st.1))
        } else {
            Err(WgError::Decode)
        }
    } else if t == WGALLOWEDIP_A_CIDR {
        if a.value.len() == 1 {
            Ok((st.0, Some(a.value[0])))
        } else {
            Err(WgError::Decode)
        }
    } else {
        Ok(st)
    }
}

pub open spec fn spec_fold_aip(
    st: (Option<Seq<u8>>, Option<u8>),
    s: Seq<AttrModel>,
) -> Result<(Option<Seq<u8>>, Option<u8>), WgError>
    decreases s.len(),
{
    if s.len() == 0 {
        Ok(st)
    } else {
        match spec_aip_step(st, s[0]) {
            Ok(st2) => spec_fold_aip(st2, s.skip(1)),
            Err(e) => Err(e),
        }
    }
}

/// One allowed-IP entry from its attribute records: kept only when both
/// the address and the prefix length were seen; an entry missing either
/// is dropped, not defaulted.
pub open spec fn spec_allowed_ip_entry(s: Seq<AttrModel>) -> Result<
    Option<AllowedIpModel>,
    WgError,
> {
    match spec_fold_aip((None, None), s) {
        Err(e) => Err(e),
        Ok((Some(addr), Some(cidr))) => Ok(Some(AllowedIpModel { addr, cidr })),
        Ok(_) => Ok(None),
    }
}

/// The allowed-IP list of one container attribute: each child record is
/// one entry's attribute tree; entries missing a field are excluded.
pub open spec fn spec_allowed_ips(children: Seq<AttrModel>) -> Result<
    Seq<AllowedIpModel>,
    WgError,
>
    decreases children.len(),
{
    if children.len() == 0 {
        Ok(Seq::empty())
    } else {
        match spec_decode_attrs(children[0].value) {
            None => Err(WgError::Decode),
            Some(entry) => match spec_allowed_ip_entry(entry) {
                Err(e) => Err(e),
                Ok(opt) => match spec_allowed_ips(children.skip(1)) {
                    Err(e) => Err(e),
                    Ok(rest) => match opt {
                        Some(ip) => Ok(seq![ip] + rest),
                        None => Ok(rest),
                    },
                },
            },
        }
    }
}

/// Round trip through the allowed-IP vocabulary: encoding an entry's
/// address and prefix length as its two records and decoding them with
/// this vocabulary yields the entry back, kept, not dropped.
pub proof fn lemma_allowed_ip_round_trip(ip: AllowedIpModel)
    requires
        ip.addr.len() == 4 || ip.addr.len() == 16,
    ensures
        ({
            let s = seq![
                AttrModel { tag: WGALLOWEDIP_A_IPADDR, value: ip.addr },
                AttrModel { tag: WGALLOWEDIP_A_CIDR, value: seq![ip.cidr] },
            ];
            crate::tlv::spec_decode_attrs(crate::tlv::spec_encode_attrs(s)) == Some(s)
                && spec_allowed_ip_entry(s) == Ok::<Option<AllowedIpModel>, WgError>(Some(ip))
        }),
{
    let s = seq![
        AttrModel { tag: WGALLOWEDIP_A_IPADDR, value: ip.addr },
        AttrModel { tag: WGALLOWEDIP_A_CIDR, value: seq![ip.cidr] },
    ];
    assert(crate::tlv::attrs_wf(s));
    crate::tlv::lemma_attrs_round_trip(s);
    assert((2u16 & 0x3FFF) == 2u16) by (bit_vector);
    assert((3u16 & 0x3FFF) == 3u16) by (bit_vector);
    assert(spec_tag_of(WGALLOWEDIP_A_IPADDR) == WGALLOWEDIP_A_IPADDR);
    assert(spec_tag_of(WGALLOWEDIP_A_CIDR) == WGALLOWEDIP_A_CIDR);
    reveal_with_fuel(spec_fold_aip, 4);
    assert(s.skip(1) =~= seq![AttrModel { tag: WGALLOWEDIP_A_CIDR, value: seq![ip.cidr] }]);
    assert(s.skip(1).skip(1) =~= Seq::<AttrModel>::empty());
}

/// An entry whose records carry no address attribute is never kept.
pub proof fn lemma_allowed_ip_needs_addr(s: Seq<AttrModel>)
    requires
        forall|i: int| 0 <= i < s.len() ==> spec_tag_of(#[trigger] s[i].tag)
            != WGALLOWEDIP_A_IPADDR,
    ensures
        spec_allowed_ip_entry(s) is Ok ==> spec_allowed_ip_entry(s) == Ok::<
            Option<AllowedIpModel>,
            WgError,
        >(None),
{
    lemma_fold_aip_no_addr((None, None), s);
}

/// An entry whose records carry no prefix-length attribute is never kept.
pub proof fn lemma_allowed_ip_needs_cidr(s: Seq<AttrModel>)
    requires
        forall|i: int| 0 <= i < s.len() ==> spec_tag_of(#[trigger] s[i].tag)
            != WGALLOWEDIP_A_CIDR,
    ensures
        spec_allowed_ip_entry(s) is Ok ==> spec_allowed_ip_entry(s) == Ok::<
            Option<AllowedIpModel>,
            WgError,
        >(None),
{
    lemma_fold_aip_no_cidr((None, None), s);
}

proof fn lemma_fold_aip_no_addr(st: (Option<Seq<u8>>, Option<u8>), s: Seq<AttrModel>)
    requires
        st.0 is None,
        forall|i: int| 0 <= i < s.len() ==> spec_tag_of(#[trigger] s[i].tag)
            != WGALLOWEDIP_A_IPADDR,
    ensures
        spec_fold_aip(st, s) is Ok ==> spec_fold_aip(st, s).unwrap().0 is None,
    decreases s.len(),
{
    if s.len() > 0 {
        match spec_aip_step(st, s[0]) {
            Ok(st2) => {
                lemma_fold_aip_no_addr(st2, s.skip(1));
            },
            Err(_) => {},
        }
    }
}

proof fn lemma_fold_aip_no_cidr(st: (Option<Seq<u8>>, Option<u8>), s: Seq<AttrModel>)
    requires
        st.1 is None,
        forall|i: int| 0 <= i < s.len() ==> spec_tag_of(#[trigger] s[i].tag)
            != WGALLOWEDIP_A_CIDR,
    ensures
        spec_fold_aip(st, s) is Ok ==> spec_fold_aip(st, s).unwrap().1 is None,
    decreases s.len(),
{
    if s.len() > 0 {
        match spec_aip_step(st, s[0]) {
            Ok(st2) => {
                lemma_fold_aip_no_cidr(st2, s.skip(1));
            },
            Err(_) => {},
        }
    }
}

/// What one peer attribute does to the peer decoded so far.
pub open spec fn spec_peer_step(p: PeerModel, a: AttrModel) -> Result<PeerModel, WgError> {
    let t = spec_tag_of(a.tag);
    if t == WGPEER_A_PUBLIC_KEY {
        if a.value.len() == KEY_LEN {
            Ok(PeerModel { public_key: Some(a.value), ..p })
        } else {
            Err(WgError::Decode)
        }
    } else if t == WGPEER_A_PRESHARED_KEY {
        if a.value.len() == KEY_LEN {
            Ok(PeerModel { has_preshared_key: true, ..p })
        } else {
            Err(WgError::Decode)
        }
    } else if t == WGPEER_A_ENDPOINT {
        match spec_endpoint(a.value) {
            Ok(e) => Ok(PeerModel { endpoint: Some(e), ..p }),
            Err(e) => Err(e),
        }
    } else if t == WGPEER_A_PERSISTENT_KEEPALIVE {
        if a.value.len() == 2 {
            Ok(PeerModel { keepalive: Some(le16(a.value[0], a.value[1])), ..p })
        } else {
            Err(WgError::Decode)
        }
    } else if t == WGPEER_A_LAST_HANDSHAKE {
        if a.value.len() == 16 {
            Ok(PeerModel { last_handshake: Some(le64(a.value.subrange(0, 8))), ..p })
        } else {
            Err(WgError::Decode)
        }
    } else if t == WGPEER_A_ALLOWEDIPS {
        match spec_decode_attrs(a.value) {
            None => Err(WgError::Decode),
            Some(children) => match spec_allowed_ips(children) {
                Err(e) => Err(e),
                Ok(list) => Ok(PeerModel { allowed_ips: p.allowed_ips + list, ..p }),
            },
        }
    } else {
        Ok(p)
    }
}

pub open spec fn spec_fold_peer(p: PeerModel, s: Seq<AttrModel>) -> Result<PeerModel, WgError>
    decreases s.len(),
{
    if s.len() == 0 {
        Ok(p)
    } else {
        match spec_peer_step(p, s[0]) {
            Ok(p2) => spec_fold_peer(p2, s.skip(1)),
            Err(e) => Err(e),
        }
    }
}

/// The peer list of one container attribute: each child record is one
/// peer's attribute tree, in the order the kernel emitted them.
pub open spec fn spec_peers(children: Seq<AttrModel>) -> Result<Seq<PeerModel>, WgError>
    decreases children.len(),
{
    if children.len() == 0 {
        Ok(Seq::empty())
    } else {
        match spec_decode_attrs(children[0].value) {
            None => Err(WgError::Decode),
            Some(attrs) => match spec_fold_peer(spec_empty_peer(), attrs) {
                Err(e) => Err(e),
                Ok(p) => match spec_peers(children.skip(1)) {
                    Err(e) => Err(e),
                    Ok(rest) => Ok(seq![p] + rest),
                },
            },
        }
    }
}

/// The interface name with one trailing terminator byte removed.
pub open spec fn spec_strip_nul(v: Seq<u8>) -> Seq<u8> {
    if v.len() > 0 && v[v.len() - 1] == 0 {
        v.subrange(0, v.len() - 1)
    } else {
        v
    }
}

/// What one device attribute does to the snapshot decoded so far.
pub open spec fn spec_dev_step(d: SnapshotModel, a: AttrModel) -> Result<SnapshotModel, WgError> {
    let t = spec_tag_of(a.tag);
    if t == WGDEVICE_A_IFNAME {
        Ok(SnapshotModel { ifname: Some(spec_strip_nul(a.value)), ..d })
    } else if t == WGDEVICE_A_PRIVATE_KEY {
        if a.value.len() == KEY_LEN {
            Ok(SnapshotModel { has_private_key: true, ..d })
        } else {
            Err(WgError::Decode)
        }
    } else if t == WGDEVICE_A_PUBLIC_KEY {
        if a.value.len() == KEY_LEN {
            Ok(SnapshotModel { public_key: Some(a.value), ..d })
        } else {
            Err(WgError::Decode)
        }
    } else if t == WGDEVICE_A_LISTEN_PORT {
        if a.value.len() == 2 {
            Ok(SnapshotModel { listen_port: Some(le16(a.value[0], a.value[1])), ..d })
        } else {
            Err(WgError::Decode)
        }
    } else if t == WGDEVICE_A_FWMARK {
        if a.value.len() == 4 {
            Ok(
                SnapshotModel {
                    fwmark: Some(
                        crate::bytes::le32(a.value[0], a.value[1], a.value[2], a.value[3]),
                    ),
                    ..d
                },
            )
        } else {
            Err(WgError::Decode)
        }
    } else if t == WGDEVICE_A_PEERS {
        match spec_decode_attrs(a.value) {
            None => Err(WgError::Decode),
            Some(children) => match spec_peers(children) {
                Err(e) => Err(e),
                Ok(list) => Ok(SnapshotModel { peers: d.peers + list, ..d }),
            },
        }
    } else {
        Ok(d)
    }
}

pub open spec fn spec_fold_dev(d: SnapshotModel, s: Seq<AttrModel>) -> Result<
    SnapshotModel,
    WgError,
>
    decreases s.len(),
{
    if s.len() == 0 {
        Ok(d)
    } else {
        match spec_dev_step(d, s[0]) {
            Ok(d2) => spec_fold_dev(d2, s.skip(1)),
            Err(e) => Err(e),
        }
    }
}

/// The snapshot of a whole query response: every inner message's
/// attribute tree folded, in delivery order, into one snapshot.
pub open spec fn spec_fold_msgs(d: SnapshotModel, msgs: Seq<Seq<u8>>) -> Result<
    SnapshotModel,
    WgError,
>
    decreases msgs.len(),
{
    if msgs.len() == 0 {
        Ok(d)
    } else if msgs[0].len() < 4 {
        Err(WgError::Decode)
    } else {
        match spec_decode_attrs(msgs[0].skip(4)) {
            None => Err(WgError::Decode),
            Some(attrs) => match spec_fold_dev(d, attrs) {
                Err(e) => Err(e),
                Ok(d2) => spec_fold_msgs(d2, msgs.skip(1)),
            },
        }
    }
}

pub open spec fn spec_decode_device(msgs: Seq<Seq<u8>>) -> Result<SnapshotModel, WgError> {
    spec_fold_msgs(spec_empty_snapshot(), msgs)
}

/// A sequence of `n` zero bytes.
pub open spec fn zeros(n: nat) -> Seq<u8> {
    Seq::new(n, |i: int| 0u8)
}

/// The two big-endian bytes of a port.
pub open spec fn be16_bytes(p: u16) -> Seq<u8> {
    seq![(p / 256) as u8, (p % 256) as u8]
}

/// The socket-address bytes of an endpoint.
pub open spec fn spec_endpoint_bytes(e: EndpointModel) -> Seq<u8> {
    if e.v6 {
        crate::bytes::u16_le(AF_INET6) + be16_bytes(e.port) + zeros(4) + e.addr + zeros(4)
    } else {
        crate::bytes::u16_le(AF_INET) + be16_bytes(e.port) + e.addr + zeros(8)
    }
}

/// Parsing the bytes written for an endpoint gives the endpoint back.
pub proof fn lemma_endpoint_round_trip(e: EndpointModel)
    requires
        !e.v6 ==> e.addr.len() == 4,
        e.v6 ==> e.addr.len() == 16,
    ensures
        spec_endpoint(spec_endpoint_bytes(e)) == Ok::<EndpointModel, WgError>(e),
{
    let v = spec_endpoint_bytes(e);
    if e.v6 {
        crate::bytes::lemma_le16_round_trip(AF_INET6);
        assert(v[0] == crate::bytes::u16_le(AF_INET6)[0] && v[1] == crate::bytes::u16_le(
            AF_INET6,
        )[1]);
        assert(256 * (e.port / 256) + e.port % 256 == e.port) by (nonlinear_arith);
        assert(v[2] == (e.port / 256) as u8 && v[3] == (e.port % 256) as u8);
        assert(v.subrange(8, 24) =~= e.addr);
    } else {
        crate::bytes::lemma_le16_round_trip(AF_INET);
        assert(v[0] == crate::bytes::u16_le(AF_INET)[0] && v[1] == crate::bytes::u16_le(
            AF_INET,
        )[1]);
        assert(256 * (e.port / 256) + e.port % 256 == e.port) by (nonlinear_arith);
        assert(v[2] == (e.port / 256) as u8 && v[3] == (e.port % 256) as u8);
        assert(v.subrange(4, 8) =~= e.addr);
    }
}

/// The two records of one allowed-IP entry.
pub open spec fn spec_aip_record(ip: AllowedIpModel) -> Seq<AttrModel> {
    seq![
        AttrModel { tag: WGALLOWEDIP_A_IPADDR, value: ip.addr },
        AttrModel { tag: WGALLOWEDIP_A_CIDR, value: seq![ip.cidr] },
    ]
}

/// The child records of an allowed-IP container: one nested tree per
/// entry, in order.
pub open spec fn spec_aip_children(list: Seq<AllowedIpModel>) -> Seq<AttrModel> {
    list.map_values(
        |ip: AllowedIpModel|
            AttrModel {
                tag: 0,
                value: crate::tlv::spec_encode_attrs(spec_aip_record(ip)),
            },
    )
}

/// A model entry whose address has a wire-representable length.
pub open spec fn aip_wf(ip: AllowedIpModel) -> bool {
    ip.addr.len() == 4 || ip.addr.len() == 16
}

/// The encoding of one entry's records is small.
proof fn lemma_aip_record_len(ip: AllowedIpModel)
    requires
        aip_wf(ip),
    ensures
        crate::tlv::attrs_wf(spec_aip_record(ip)),
        crate::tlv::spec_encode_attrs(spec_aip_record(ip)).len() <= 32,
{
    let s = spec_aip_record(ip);
    reveal_with_fuel(crate::tlv::spec_encode_attrs, 4);
    crate::tlv::lemma_encode_singleton(s[0]);
    crate::tlv::lemma_encode_singleton(s[1]);
    assert(s.skip(1) =~= seq![s[1]]);
    assert(s.skip(1).skip(1) =~= Seq::<AttrModel>::empty());
}

/// Round trip through a whole allowed-IP container: decoding the
/// children built from any entry list yields the same list, every entry
/// kept.
pub proof fn lemma_allowed_ips_round_trip(list: Seq<AllowedIpModel>)
    requires
        forall|i: int| 0 <= i < list.len() ==> aip_wf(#[trigger] list[i]),
    ensures
        spec_allowed_ips(spec_aip_children(list)) == Ok::<Seq<AllowedIpModel>, WgError>(list),
        crate::tlv::attrs_wf(spec_aip_children(list)),
    decreases list.len(),
{
    let children = spec_aip_children(list);
    if list.len() == 0 {
        assert(Seq::<AllowedIpModel>::empty() =~= list);
    } else {
        lemma_aip_record_len(list[0]);
        crate::tlv::lemma_attrs_round_trip(spec_aip_record(list[0]));
        lemma_allowed_ip_round_trip(list[0]);
        lemma_allowed_ips_round_trip(list.skip(1));
        assert(children.skip(1) =~= spec_aip_children(list.skip(1)));
        assert(seq![list[0]] + list.skip(1) =~= list);
        assert forall|i: int| 0 <= i < children.len() implies #[trigger] children[i].value.len()
            <= crate::tlv::ATTR_MAX_VALUE by {
            if i == 0 {
            } else {
                assert(children[i] == spec_aip_children(list.skip(1))[i - 1]);
            }
        }
    }
}

/// Folding a peer over two record runs in turn is folding it over their
/// concatenation.
pub proof fn lemma_fold_peer_concat(p: PeerModel, s1: Seq<AttrModel>, s2: Seq<AttrModel>)
    ensures
        spec_fold_peer(p, s1 + s2) == match spec_fold_peer(p, s1) {
            Ok(p2) => spec_fold_peer(p2, s2),
            Err(e) => Err(e),
        },
    decreases s1.len(),
{
    if s1.len() == 0 {
        assert(s1 + s2 =~= s2);
    } else {
        assert((s1 + s2)[0] == s1[0]);
        assert((s1 + s2).skip(1) =~= s1.skip(1) + s2);
        match spec_peer_step(p, s1[0]) {
            Ok(p2) => {
                lemma_fold_peer_concat(p2, s1.skip(1), s2);
            },
            Err(_) => {},
        }
    }
}

/// The attribute records that carry one peer: one record per present
/// field, in a fixed order, with nested trees for the allowed-IP list.
/// A preshared key is carried as opaque bytes; zeros stand for them
/// here, since only its presence survives decoding.
pub open spec fn spec_peer_attrs(p: PeerModel) -> Seq<AttrModel> {
    (match p.public_key {
        Some(k) => seq![AttrModel { tag: WGPEER_A_PUBLIC_KEY, value: k }],
        None => Seq::empty(),
    }) + (if p.has_preshared_key {
        seq![AttrModel { tag: WGPEER_A_PRESHARED_KEY, value: zeros(32) }]
    } else {
        Seq::empty()
    }) + (match p.endpoint {
        Some(e) => seq![AttrModel { tag: WGPEER_A_ENDPOINT, value: spec_endpoint_bytes(e) }],
        None => Seq::empty(),
    }) + (match p.keepalive {
        Some(k) => seq![
            AttrModel { tag: WGPEER_A_PERSISTENT_KEEPALIVE, value: crate::bytes::u16_le(k) },
        ],
        None => Seq::empty(),
    }) + (match p.last_handshake {
        Some(ts) => seq![
            AttrModel {
                tag: WGPEER_A_LAST_HANDSHAKE,
                value: crate::bytes::u64_le(ts) + zeros(8),
            },
        ],
        None => Seq::empty(),
    }) + (if p.allowed_ips.len() > 0 {
        seq![
            AttrModel {
                tag: WGPEER_A_ALLOWEDIPS,
                value: crate::tlv::spec_encode_attrs(spec_aip_children(p.allowed_ips)),
            },
        ]
    } else {
        Seq::empty()
    })
}

/// A peer model whose fields all have wire-representable shapes.
pub open spec fn peer_wf(p: PeerModel) -> bool {
    &&& (p.public_key matches Some(k) ==> k.len() == KEY_LEN)
    &&& (p.endpoint matches Some(e) ==> (if e.v6 {
        e.addr.len() == 16
    } else {
        e.addr.len() == 4
    }))
    &&& (forall|i: int| 0 <= i < p.allowed_ips.len() ==> aip_wf(#[trigger] p.allowed_ips[i]))
    &&& crate::tlv::spec_encode_attrs(spec_aip_children(p.allowed_ips)).len()
        <= crate::tlv::ATTR_MAX_VALUE
}

/// Folding one record is taking its step.
proof fn lemma_fold_peer_one(q: PeerModel, a: AttrModel)
    ensures
        spec_fold_peer(q, seq![a]) == match spec_peer_step(q, a) {
            Ok(q2) => Ok::<PeerModel, WgError>(q2),
            Err(e) => Err::<PeerModel, WgError>(e),
        },
{
    reveal_with_fuel(spec_fold_peer, 3);
    assert(seq![a].skip(1) =~= Seq::<AttrModel>::empty());
}

/// Round trip through the peer vocabulary: folding the records written
/// for any well-formed peer model yields that model back, field for
/// field, allowed-IP entries included.
pub proof fn lemma_peer_round_trip(p: PeerModel)
    requires
        peer_wf(p),
    ensures
        spec_fold_peer(spec_empty_peer(), spec_peer_attrs(p)) == Ok::<PeerModel, WgError>(p),
{
    assert((1u16 & 0x3FFF) == 1u16) by (bit_vector);
    assert((2u16 & 0x3FFF) == 2u16) by (bit_vector);
    assert((4u16 & 0x3FFF) == 4u16) by (bit_vector);
    assert((5u16 & 0x3FFF) == 5u16) by (bit_vector);
    assert((6u16 & 0x3FFF) == 6u16) by (bit_vector);
    assert((9u16 & 0x3FFF) == 9u16) by (bit_vector);
    let s1 = match p.public_key {
        Some(k) => seq![AttrModel { tag: WGPEER_A_PUBLIC_KEY, value: k }],
        None => Seq::empty(),
    };
    let s2 = if p.has_preshared_key {
        seq![AttrModel { tag: WGPEER_A_PRESHARED_KEY, value: zeros(32) }]
    } else {
        Seq::empty()
    };
    let s3 = match p.endpoint {
        Some(e) => seq![AttrModel { tag: WGPEER_A_ENDPOINT, value: spec_endpoint_bytes(e) }],
        None => Seq::empty(),
    };
    let s4 = match p.keepalive {
        Some(k) => seq![
            AttrModel { tag: WGPEER_A_PERSISTENT_KEEPALIVE, value: crate::bytes::u16_le(k) },
        ],
        None => Seq::empty(),
    };
    let s5 = match p.last_handshake {
        Some(ts) => seq![
            AttrModel {
                tag: WGPEER_A_LAST_HANDSHAKE,
                value: crate::bytes::u64_le(ts) + zeros(8),
            },
        ],
        None => Seq::empty(),
    };
    let s6 = if p.allowed_ips.len() > 0 {
        seq![
            AttrModel {
                tag: WGPEER_A_ALLOWEDIPS,
                value: crate::tlv::spec_encode_attrs(spec_aip_children(p.allowed_ips)),
            },
        ]
    } else {
        Seq::empty()
    };
    let q0 = spec_empty_peer();
    let q1 = PeerModel { public_key: p.public_key, ..q0 };
    let q2 = PeerModel { has_preshared_key: p.has_preshared_key, ..q1 };
    let q3 = PeerModel { endpoint: p.endpoint, ..q2 };
    let q4 = PeerModel { keepalive: p.keepalive, ..q3 };
    let q5 = PeerModel { last_handshake: p.last_handshake, ..q4 };
    assert(spec_fold_peer(q0, s1) == Ok::<PeerModel, WgError>(q1)) by {
        match p.public_key {
            Some(k) => {
                lemma_fold_peer_one(q0, AttrModel { tag: WGPEER_A_PUBLIC_KEY, value: k });
            },
            None => {
                assert(q1 == q0);
            },
        }
    }
    assert(spec_fold_peer(q1, s2) == Ok::<PeerModel, WgError>(q2)) by {
        if p.has_preshared_key {
            lemma_fold_peer_one(q1, AttrModel { tag: WGPEER_A_PRESHARED_KEY, value: zeros(32) });
        } else {
            assert(q2 == q1);
        }
    }
    assert(spec_fold_peer(q2, s3) == Ok::<PeerModel, WgError>(q3)) by {
        match p.endpoint {
            Some(e) => {
                lemma_endpoint_round_trip(e);
                lemma_fold_peer_one(
                    q2,
                    AttrModel { tag: WGPEER_A_ENDPOINT, value: spec_endpoint_bytes(e) },
                );
            },
            None => {
                assert(q3 == q2);
            },
        }
    }
    assert(spec_fold_peer(q3, s4) == Ok::<PeerModel, WgError>(q4)) by {
        match p.keepalive {
            Some(k) => {
                crate::bytes::lemma_le16_round_trip(k);
                lemma_fold_peer_one(
                    q3,
                    AttrModel {
                        tag: WGPEER_A_PERSISTENT_KEEPALIVE,
                        value: crate::bytes::u16_le(k),
                    },
                );
            },
            None => {
                assert(q4 == q3);
            },
        }
    }
    assert(spec_fold_peer(q4, s5) == Ok::<PeerModel, WgError>(q5)) by {
        match p.last_handshake {
            Some(ts) => {
                let v = crate::bytes::u64_le(ts) + zeros(8);
                assert(v.subrange(0, 8) =~= crate::bytes::u64_le(ts));
                crate::bytes::lemma_le64_round_trip(ts);
                lemma_fold_peer_one(q4, AttrModel { tag: WGPEER_A_LAST_HANDSHAKE, value: v });
            },
            None => {
                assert(q5 == q4);
            },
        }
    }
    assert(spec_fold_peer(q5, s6) == Ok::<PeerModel, WgError>(p)) by {
        if p.allowed_ips.len() > 0 {
            let children = spec_aip_children(p.allowed_ips);
            lemma_allowed_ips_round_trip(p.allowed_ips);
            crate::tlv::lemma_attrs_round_trip(children);
            lemma_fold_peer_one(
                q5,
                AttrModel {
                    tag: WGPEER_A_ALLOWEDIPS,
                    value: crate::tlv::spec_encode_attrs(children),
                },
            );
            assert(q5.allowed_ips + p.allowed_ips =~= p.allowed_ips);
            assert(PeerModel { allowed_ips: q5.allowed_ips + p.allowed_ips, ..q5 } == p);
        } else {
            assert(q5.allowed_ips =~= p.allowed_ips);
            assert(q5 == p);
        }
    }
    lemma_fold_peer_concat(q0, s1, s2);
    lemma_fold_peer_concat(q0, s1 + s2, s3);
    lemma_fold_peer_concat(q0, s1 + s2 + s3, s4);
    lemma_fold_peer_concat(q0, s1 + s2 + s3 + s4, s5);
    lemma_fold_peer_concat(q0, s1 + s2 + s3 + s4 + s5, s6);
}

/// Every record written for a peer fits behind its length prefix.
proof fn lemma_peer_attrs_wf(p: PeerModel)
    requires
        peer_wf(p),
    ensures
        crate::tlv::attrs_wf(spec_peer_attrs(p)),
{
    let s = spec_peer_attrs(p);
    assert forall|i: int| 0 <= i < s.len() implies #[trigger] s[i].value.len()
        <= crate::tlv::ATTR_MAX_VALUE by {
        assert(s[i].value.len() <= crate::tlv::ATTR_MAX_VALUE);
    }
}

/// The child records of a peers container: one nested tree per peer.
pub open spec fn spec_peer_children(list: Seq<PeerModel>) -> Seq<AttrModel> {
    list.map_values(
        |p: PeerModel|
            AttrModel { tag: 0, value: crate::tlv::spec_encode_attrs(spec_peer_attrs(p)) },
    )
}

/// Every child record of a peers container fits behind its length
/// prefix.
proof fn lemma_peer_children_wf(list: Seq<PeerModel>)
    requires
        forall|i: int| 0 <= i < list.len() ==> crate::tlv::spec_encode_attrs(
            spec_peer_attrs(#[trigger] list[i]),
        ).len() <= crate::tlv::ATTR_MAX_VALUE,
    ensures
        crate::tlv::attrs_wf(spec_peer_children(list)),
{
    let children = spec_peer_children(list);
    assert forall|i: int| 0 <= i < children.len() implies #[trigger] children[i].value.len()
        <= crate::tlv::ATTR_MAX_VALUE by {
        assert(children[i].value == crate::tlv::spec_encode_attrs(spec_peer_attrs(list[i])));
    }
}

/// Decoding a peers container whose every child decodes and folds to
/// the matching entry of `list` yields exactly `list`.
proof fn lemma_peers_from_children(children: Seq<AttrModel>, list: Seq<PeerModel>)
    requires
        children.len() == list.len(),
        forall|i: int|
            0 <= i < children.len() ==> {
                &&& spec_decode_attrs(#[trigger] children[i].value) is Some
                &&& spec_fold_peer(
                    spec_empty_peer(),
                    spec_decode_attrs(children[i].value).unwrap(),
                ) == Ok::<PeerModel, WgError>(list[i])
            },
    ensures
        spec_peers(children) == Ok::<Seq<PeerModel>, WgError>(list),
    decreases children.len(),
{
    if children.len() == 0 {
        assert(Seq::<PeerModel>::empty() =~= list);
    } else {
        assert(spec_decode_attrs(children[0].value) is Some);
        assert forall|i: int|
            0 <= i < children.skip(1).len() implies {
                &&& spec_decode_attrs(#[trigger] children.skip(1)[i].value) is Some
                &&& spec_fold_peer(
                    spec_empty_peer(),
                    spec_decode_attrs(children.skip(1)[i].value).unwrap(),
                ) == Ok::<PeerModel, WgError>(list.skip(1)[i])
            } by {
            assert(children.skip(1)[i] == children[i + 1]);
            assert(list.skip(1)[i] == list[i + 1]);
        }
        lemma_peers_from_children(children.skip(1), list.skip(1));
        assert(seq![list[0]] + list.skip(1) =~= list);
    }
}

/// Round trip through a whole peers container: decoding the children
/// built from any list of well-formed peers yields the same list.
#[verifier::rlimit(100)]
pub proof fn lemma_peers_round_trip(list: Seq<PeerModel>)
    requires
        forall|i: int| 0 <= i < list.len() ==> peer_wf(#[trigger] list[i]),
        forall|i: int| 0 <= i < list.len() ==> crate::tlv::spec_encode_attrs(
            spec_peer_attrs(#[trigger] list[i]),
        ).len() <= crate::tlv::ATTR_MAX_VALUE,
    ensures
        spec_peers(spec_peer_children(list)) == Ok::<Seq<PeerModel>, WgError>(list),
        crate::tlv::attrs_wf(spec_peer_children(list)),
    decreases list.len(),
{
    lemma_peer_children_wf(list);
    let children = spec_peer_children(list);
    assert forall|i: int|
        0 <= i < children.len() implies {
            &&& spec_decode_attrs(#[trigger] children[i].value) is Some
            &&& spec_fold_peer(
                spec_empty_peer(),
                spec_decode_attrs(children[i].value).unwrap(),
            ) == Ok::<PeerModel, WgError>(list[i])
        } by {
        assert(children[i].value == crate::tlv::spec_encode_attrs(spec_peer_attrs(list[i])));
        lemma_peer_attrs_wf(list[i]);
        crate::tlv::lemma_attrs_round_trip(spec_peer_attrs(list[i]));
        lemma_peer_round_trip(list[i]);
    }
    lemma_peers_from_children(children, list);
}

/// The attribute records that carry one device snapshot: one record per
/// present field, with the peers as one nested container.
pub open spec fn spec_device_attrs(d: SnapshotModel) -> Seq<AttrModel> {
    (match d.ifname {
        Some(name) => seq![AttrModel { tag: WGDEVICE_A_IFNAME, value: name + seq![0u8] }],
        None => Seq::empty(),
    }) + (if d.has_private_key {
        seq![AttrModel { tag: WGDEVICE_A_PRIVATE_KEY, value: zeros(32) }]
    } else {
        Seq::empty()
    }) + (match d.public_key {
        Some(k) => seq![AttrModel { tag: WGDEVICE_A_PUBLIC_KEY, value: k }],
        None => Seq::empty(),
    }) + (match d.listen_port {
        Some(port) => seq![
            AttrModel { tag: WGDEVICE_A_LISTEN_PORT, value: crate::bytes::u16_le(port) },
        ],
        None => Seq::empty(),
    }) + (match d.fwmark {
        Some(mark) => seq![AttrModel { tag: WGDEVICE_A_FWMARK, value: crate::bytes::u32_le(mark) }],
        None => Seq::empty(),
    }) + (if d.peers.len() > 0 {
        seq![
            AttrModel {
                tag: WGDEVICE_A_PEERS,
                value: crate::tlv::spec_encode_attrs(spec_peer_children(d.peers)),
            },
        ]
    } else {
        Seq::empty()
    })
}

/// A snapshot model whose fields all have wire-representable shapes.
pub open spec fn snapshot_wf(d: SnapshotModel) -> bool {
    &&& (d.ifname matches Some(name) ==> name.len() + 1 <= crate::tlv::ATTR_MAX_VALUE)
    &&& (d.public_key matches Some(k) ==> k.len() == KEY_LEN)
    &&& (forall|i: int| 0 <= i < d.peers.len() ==> peer_wf(#[trigger] d.peers[i]))
    &&& (forall|i: int| 0 <= i < d.peers.len() ==> crate::tlv::spec_encode_attrs(
        spec_peer_attrs(#[trigger] d.peers[i]),
    ).len() <= crate::tlv::ATTR_MAX_VALUE)
    &&& crate::tlv::spec_encode_attrs(spec_peer_children(d.peers)).len()
        <= crate::tlv::ATTR_MAX_VALUE
}

/// Folding one device record is taking its step.
proof fn lemma_fold_dev_one(q: SnapshotModel, a: AttrModel)
    ensures
        spec_fold_dev(q, seq![a]) == match spec_dev_step(q, a) {
            Ok(q2) => Ok::<SnapshotModel, WgError>(q2),
            Err(e) => Err::<SnapshotModel, WgError>(e),
        },
{
    reveal_with_fuel(spec_fold_dev, 3);
    assert(seq![a].skip(1) =~= Seq::<AttrModel>::empty());
}

/// Folding a snapshot over two record runs in turn is folding it over
/// their concatenation.
pub proof fn lemma_fold_dev_concat(q: SnapshotModel, s1: Seq<AttrModel>, s2: Seq<AttrModel>)
    ensures
        spec_fold_dev(q, s1 + s2) == match spec_fold_dev(q, s1) {
            Ok(q2) => spec_fold_dev(q2, s2),
            Err(e) => Err(e),
        },
    decreases s1.len(),
{
    if s1.len() == 0 {
        assert(s1 + s2 =~= s2);
    } else {
        assert((s1 + s2)[0] == s1[0]);
        assert((s1 + s2).skip(1) =~= s1.skip(1) + s2);
        match spec_dev_step(q, s1[0]) {
            Ok(q2) => {
                lemma_fold_dev_concat(q2, s1.skip(1), s2);
            },
            Err(_) => {},
        }
    }
}

/// Round trip through the device vocabulary: folding the records
/// written for any well-formed snapshot model — peers and their
/// allowed-IP lists included — yields that model back.
#[verifier::rlimit(100)]
pub proof fn lemma_device_round_trip(d: SnapshotModel)
    requires
        snapshot_wf(d),
    ensures
        spec_fold_dev(spec_empty_snapshot(), spec_device_attrs(d)) == Ok::<
            SnapshotModel,
            WgError,
        >(d),
{
    assert((2u16 & 0x3FFF) == 2u16) by (bit_vector);
    assert((3u16 & 0x3FFF) == 3u16) by (bit_vector);
    assert((4u16 & 0x3FFF) == 4u16) by (bit_vector);
    assert((6u16 & 0x3FFF) == 6u16) by (bit_vector);
    assert((7u16 & 0x3FFF) == 7u16) by (bit_vector);
    assert((8u16 & 0x3FFF) == 8u16) by (bit_vector);
    let s1 = match d.ifname {
        Some(name) => seq![AttrModel { tag: WGDEVICE_A_IFNAME, value: name + seq![0u8] }],
        None => Seq::empty(),
    };
    let s2 = if d.has_private_key {
        seq![AttrModel { tag: WGDEVICE_A_PRIVATE_KEY, value: zeros(32) }]
    } else {
        Seq::empty()
    };
    let s3 = match d.public_key {
        Some(k) => seq![AttrModel { tag: WGDEVICE_A_PUBLIC_KEY, value: k }],
        None => Seq::empty(),
    };
    let s4 = match d.listen_port {
        Some(port) => seq![
            AttrModel { tag: WGDEVICE_A_LISTEN_PORT, value: crate::bytes::u16_le(port) },
        ],
        None => Seq::empty(),
    };
    let s5 = match d.fwmark {
        Some(mark) => seq![AttrModel { tag: WGDEVICE_A_FWMARK, value: crate::bytes::u32_le(mark) }],
        None => Seq::empty(),
    };
    let s6 = if d.peers.len() > 0 {
        seq![
            AttrModel {
                tag: WGDEVICE_A_PEERS,
                value: crate::tlv::spec_encode_attrs(spec_peer_children(d.peers)),
            },
        ]
    } else {
        Seq::empty()
    };
    let q0 = spec_empty_snapshot();
    let q1 = SnapshotModel { ifname: d.ifname, ..q0 };
    let q2 = SnapshotModel { has_private_key: d.has_private_key, ..q1 };
    let q3 = SnapshotModel { public_key: d.public_key, ..q2 };
    let q4 = SnapshotModel { listen_port: d.listen_port, ..q3 };
    let q5 = SnapshotModel { fwmark: d.fwmark, ..q4 };
    assert(spec_fold_dev(q0, s1) == Ok::<SnapshotModel, WgError>(q1)) by {
        match d.ifname {
            Some(name) => {
                let v = name + seq![0u8];
                assert(v[v.len() - 1] == 0);
                assert(spec_strip_nul(v) =~= name);
                lemma_fold_dev_one(q0, AttrModel { tag: WGDEVICE_A_IFNAME, value: v });
            },
            None => {
                assert(q1 == q0);
            },
        }
    }
    assert(spec_fold_dev(q1, s2) == Ok::<SnapshotModel, WgError>(q2)) by {
        if d.has_private_key {
            lemma_fold_dev_one(q1, AttrModel { tag: WGDEVICE_A_PRIVATE_KEY, value: zeros(32) });
        } else {
            assert(q2 == q1);
        }
    }
    assert(spec_fold_dev(q2, s3) == Ok::<SnapshotModel, WgError>(q3)) by {
        match d.public_key {
            Some(k) => {
                lemma_fold_dev_one(q2, AttrModel { tag: WGDEVICE_A_PUBLIC_KEY, value: k });
            },
            None => {
                assert(q3 == q2);
            },
        }
    }
    assert(spec_fold_dev(q3, s4) == Ok::<SnapshotModel, WgError>(q4)) by {
        match d.listen_port {
            Some(port) => {
                crate::bytes::lemma_le16_round_trip(port);
                lemma_fold_dev_one(
                    q3,
                    AttrModel { tag: WGDEVICE_A_LISTEN_PORT, value: crate::bytes::u16_le(port) },
                );
            },
            None => {
                assert(q4 == q3);
            },
        }
    }
    assert(spec_fold_dev(q4, s5) == Ok::<SnapshotModel, WgError>(q5)) by {
        match d.fwmark {
            Some(mark) => {
                crate::bytes::lemma_le32_round_trip(mark);
                lemma_fold_dev_one(
                    q4,
                    AttrModel { tag: WGDEVICE_A_FWMARK, value: crate::bytes::u32_le(mark) },
                );
            },
            None => {
                assert(q5 == q4);
            },
        }
    }
    assert(spec_fold_dev(q5, s6) == Ok::<SnapshotModel, WgError>(d)) by {
        if d.peers.len() > 0 {
            let children = spec_peer_children(d.peers);
            lemma_peers_round_trip(d.peers);
            crate::tlv::lemma_attrs_round_trip(children);
            lemma_fold_dev_one(
                q5,
                AttrModel {
                    tag: WGDEVICE_A_PEERS,
                    value: crate::tlv::spec_encode_attrs(children),
                },
            );
            assert(q5.peers + d.peers =~= d.peers);
            assert(SnapshotModel { peers: q5.peers + d.peers, ..q5 } == d);
        } else {
            assert(q5.peers =~= d.peers);
            assert(q5 == d);
        }
    }
    lemma_fold_dev_concat(q0, s1, s2);
    lemma_fold_dev_concat(q0, s1 + s2, s3);
    lemma_fold_dev_concat(q0, s1 + s2 + s3, s4);
    lemma_fold_dev_concat(q0, s1 + s2 + s3 + s4, s5);
    lemma_fold_dev_concat(q0, s1 + s2 + s3 + s4 + s5, s6);
}

/// Every record written for a snapshot fits behind its length prefix.
proof fn lemma_device_attrs_wf(d: SnapshotModel)
    requires
        snapshot_wf(d),
    ensures
        crate::tlv::attrs_wf(spec_device_attrs(d)),
{
    let s = spec_device_attrs(d);
    assert forall|i: int| 0 <= i < s.len() implies #[trigger] s[i].value.len()
        <= crate::tlv::ATTR_MAX_VALUE by {
        assert(s[i].value.len() <= crate::tlv::ATTR_MAX_VALUE);
    }
}

/// Round trip of a whole response message: a single inner message that
/// carries any envelope header and the encoded records of a well-formed
/// snapshot decodes to exactly that snapshot.
pub proof fn lemma_snapshot_round_trip(hdr: Seq<u8>, d: SnapshotModel)
    requires
        hdr.len() == 4,
        snapshot_wf(d),
    ensures
        spec_decode_device(
            seq![hdr + crate::tlv::spec_encode_attrs(spec_device_attrs(d))],
        ) == Ok::<SnapshotModel, WgError>(d),
{
    let enc = crate::tlv::spec_encode_attrs(spec_device_attrs(d));
    let msg = hdr + enc;
    let msgs = seq![msg];
    assert(msgs[0].skip(4) =~= enc);
    lemma_device_attrs_wf(d);
    crate::tlv::lemma_attrs_round_trip(spec_device_attrs(d));
    lemma_device_round_trip(d);
    reveal_with_fuel(spec_fold_msgs, 3);
    assert(msgs.skip(1) =~= Seq::<Seq<u8>>::empty());
}

/// Parses an endpoint's socket-address bytes.
pub fn parse_endpoint(v: &Vec<u8>) -> (r: Result<Endpoint, WgError>)
    ensures
        match r {
            Ok(e) => spec_endpoint(v@) == Ok::<EndpointModel, WgError>(e@),
            Err(e) => spec_endpoint(v@) == Err::<EndpointModel, WgError>(e),
        },
{
    if v.len() == 16 && (v[0] as u16) + 256 * (v[1] as u16) == AF_INET {
        let port = 256 * (v[2] as u16) + (v[3] as u16);
        let addr = copy_range(v.as_slice(), 4, 8);
        Ok(Endpoint { v6: false, addr, port })
    } else if v.len() == 28 && (v[0] as u16) + 256 * (v[1] as u16) == AF_INET6 {
        let port = 256 * (v[2] as u16) + (v[3] as u16);
        let addr = copy_range(v.as_slice(), 8, 24);
        Ok(Endpoint { v6: true, addr, port })
    } else {
        Err(WgError::Decode)
    }
}

/// Decodes the allowed-IP list held by one container attribute's
/// children, excluding every entry that lacks the address or the prefix
/// length.
#[verifier::loop_isolation(false)]
pub fn decode_allowed_ips(children: &Vec<RawAttr>) -> (r: Result<Vec<AllowedIp>, WgError>)
    ensures
        match r {
            Ok(list) => spec_allowed_ips(attrs_model(children@)) == Ok::<
                Seq<AllowedIpModel>,
                WgError,
            >(aips_model(list@)),
            Err(e) => spec_allowed_ips(attrs_model(children@)) == Err::<
                Seq<AllowedIpModel>,
                WgError,
            >(e),
        },
{
    let ghost cm = attrs_model(children@);
    let mut acc: Vec<AllowedIp> = Vec::new();
    let mut i: usize = 0;
    proof {
        assert(cm.skip(0) =~= cm);
        assert(aips_model(acc@) =~= Seq::<AllowedIpModel>::empty());
    }
    while i < children.len()
        invariant
            i <= children.len(),
            spec_allowed_ips(cm) == match spec_allowed_ips(cm.skip(i as int)) {
                Ok(rest) => Ok::<Seq<AllowedIpModel>, WgError>(aips_model(acc@) + rest),
                Err(e) => Err::<Seq<AllowedIpModel>, WgError>(e),
            },
        decreases children.len() - i,
    {
        let ghost ct = cm.skip(i as int);
        assert(ct[0] == children@[i as int]@);
        let child = &children[i];
        let entry_attrs = match decode_attrs(child.value.as_slice()) {
            Ok(a) => a,
            Err(_) => {
                return Err(WgError::Decode);
            },
        };
        let ghost em = attrs_model(entry_attrs@);
        // scan the entry's records for the address and the prefix length
        let mut found_addr: Option<Vec<u8>> = None;
        let mut found_cidr: Option<u8> = None;
        let mut j: usize = 0;
        proof {
            assert(em.skip(0) =~= em);
        }
        while j < entry_attrs.len()
            invariant
                j <= entry_attrs.len(),
                spec_fold_aip((opt_bytes(found_addr), found_cidr), em.skip(j as int))
                    == spec_fold_aip(((None, None)), em),
            decreases entry_attrs.len() - j,
        {
            let ghost st = (opt_bytes(found_addr), found_cidr);
            let ghost et = em.skip(j as int);
            assert(et[0] == entry_attrs@[j as int]@);
            let a = &entry_attrs[j];
            let t = tag_of(a.tag);
            if t == WGALLOWEDIP_A_IPADDR {
                if a.value.len() == 4 || a.value.len() == 16 {
                    found_addr = Some(copy_range(a.value.as_slice(), 0, a.value.len()));
                    assert(found_addr.unwrap()@ =~= a.value@);
                } else {
                    return Err(WgError::Decode);
                }
            } else if t == WGALLOWEDIP_A_CIDR {
                if a.value.len() == 1 {
                    found_cidr = Some(a.value[0]);
                } else {
                    return Err(WgError::Decode);
                }
            }
            proof {
                assert(spec_aip_step(st, et[0]) == Ok::<(Option<Seq<u8>>, Option<u8>), WgError>(
                    (opt_bytes(found_addr), found_cidr),
                ));
                assert(em.skip(j as int).skip(1) =~= em.skip(j + 1));
            }
            j = j + 1;
        }
        proof {
            assert(em.skip(entry_attrs.len() as int) =~= Seq::<AttrModel>::empty());
        }
        let ghost prev_acc = aips_model(acc@);
        match (found_addr, found_cidr) {
            (Some(addr), Some(cidr)) => {
                acc.push(AllowedIp { addr, cidr });
                proof {
                    assert(aips_model(acc@) =~= prev_acc.push(
                        spec_allowed_ip_entry(em).unwrap().unwrap(),
                    ));
                }
            },
            _ => {},
        }
        proof {
            assert(cm.skip(i as int).skip(1) =~= cm.skip(i + 1));
            if spec_allowed_ips(cm.skip(i + 1)) is Ok {
                let rest = spec_allowed_ips(cm.skip(i + 1)).unwrap();
                match spec_allowed_ip_entry(em).unwrap() {
                    Some(ip) => {
                        assert(prev_acc + (seq![ip] + rest) =~= aips_model(acc@) + rest);
                    },
                    None => {},
                }
            }
        }
        i = i + 1;
    }
    proof {
        assert(cm.skip(children.len() as int) =~= Seq::<AttrModel>::empty());
        assert(aips_model(acc@) + Seq::<AllowedIpModel>::empty() =~= aips_model(acc@));
    }
    Ok(acc)
}

/// Decodes one peer from its attribute records.
#[verifier::loop_isolation(false)]
pub fn decode_peer(attrs: &Vec<RawAttr>) -> (r: Result<Peer, WgError>)
    ensures
        match r {
            Ok(p) => spec_fold_peer(spec_empty_peer(), attrs_model(attrs@)) == Ok::<
                PeerModel,
                WgError,
            >(p@),
            Err(e) => spec_fold_peer(spec_empty_peer(), attrs_model(attrs@)) == Err::<
                PeerModel,
                WgError,
            >(e),
        },
{
    let ghost am = attrs_model(attrs@);
    let mut p = Peer {
        public_key: None,
        has_preshared_key: false,
        endpoint: None,
        allowed_ips: Vec::new(),
        keepalive: None,
        last_handshake: None,
    };
    proof {
        assert(aips_model(p.allowed_ips@) =~= Seq::<AllowedIpModel>::empty());
        assert(p@ == spec_empty_peer());
        assert(am.skip(0) =~= am);
    }
    let mut i: usize = 0;
    while i < attrs.len()
        invariant
            i <= attrs.len(),
            spec_fold_peer(p@, am.skip(i as int)) == spec_fold_peer(spec_empty_peer(), am),
        decreases attrs.len() - i,
    {
        let ghost prev = p@;
        let ghost at = am.skip(i as int);
        assert(at[0] == attrs@[i as int]@);
        let a = &attrs[i];
        let t = tag_of(a.tag);
        if t == WGPEER_A_PUBLIC_KEY {
            if a.value.len() == KEY_LEN {
                p.public_key = Some(copy_range(a.value.as_slice(), 0, a.value.len()));
                assert(p.public_key.unwrap()@ =~= a.value@);
            } else {
                return Err(WgError::Decode);
            }
        } else if t == WGPEER_A_PRESHARED_KEY {
            if a.value.len() == KEY_LEN {
                p.has_preshared_key = true;
            } else {
                return Err(WgError::Decode);
            }
        } else if t == WGPEER_A_ENDPOINT {
            match parse_endpoint(&a.value) {
                Ok(e) => {
                    p.endpoint = Some(e);
                },
                Err(e) => {
                    return Err(e);
                },
            }
        } else if t == WGPEER_A_PERSISTENT_KEEPALIVE {
            if a.value.len() == 2 {
                p.keepalive = Some((a.value[0] as u16) + 256 * (a.value[1] as u16));
            } else {
                return Err(WgError::Decode);
            }
        } else if t == WGPEER_A_LAST_HANDSHAKE {
            if a.value.len() == 16 {
                p.last_handshake = Some(crate::bytes::read_u64(a.value.as_slice(), 0));
            } else {
                return Err(WgError::Decode);
            }
        } else if t == WGPEER_A_ALLOWEDIPS {
            let children = match decode_attrs(a.value.as_slice()) {
                Ok(c) => c,
                Err(_) => {
                    return Err(WgError::Decode);
                },
            };
            match decode_allowed_ips(&children) {
                Ok(mut list) => {
                    let ghost lm = aips_model(list@);
                    p.allowed_ips.append(&mut list);
                    proof {
                        assert(aips_model(p.allowed_ips@) =~= prev.allowed_ips + lm);
                    }
                },
                Err(e) => {
                    return Err(e);
                },
            }
        }
        proof {
            assert(spec_peer_step(prev, at[0]) == Ok::<PeerModel, WgError>(p@));
            assert(am.skip(i as int).skip(1) =~= am.skip(i + 1));
        }
        i = i + 1;
    }
    proof {
        assert(am.skip(attrs.len() as int) =~= Seq::<AttrModel>::empty());
    }
    Ok(p)
}

/// Decodes the peer list held by one container attribute's children.
#[verifier::loop_isolation(false)]
pub fn decode_peers(children: &Vec<RawAttr>) -> (r: Result<Vec<Peer>, WgError>)
    ensures
        match r {
            Ok(list) => spec_peers(attrs_model(children@)) == Ok::<Seq<PeerModel>, WgError>(
                peers_model(list@),
            ),
            Err(e) => spec_peers(attrs_model(children@)) == Err::<Seq<PeerModel>, WgError>(e),
        },
{
    let ghost cm = attrs_model(children@);
    let mut acc: Vec<Peer> = Vec::new();
    let mut i: usize = 0;
    proof {
        assert(cm.skip(0) =~= cm);
        assert(peers_model(acc@) =~= Seq::<PeerModel>::empty());
    }
    while i < children.len()
        invariant
            i <= children.len(),
            spec_peers(cm) == match spec_peers(cm.skip(i as int)) {
                Ok(rest) => Ok::<Seq<PeerModel>, WgError>(peers_model(acc@) + rest),
                Err(e) => Err::<Seq<PeerModel>, WgError>(e),
            },
        decreases children.len() - i,
    {
        let ghost ct = cm.skip(i as int);
        assert(ct[0] == children@[i as int]@);
        let child = &children[i];
        let peer_attrs = match decode_attrs(child.value.as_slice()) {
            Ok(a) => a,
            Err(_) => {
                return Err(WgError::Decode);
            },
        };
        let ghost prev_acc = peers_model(acc@);
        match decode_peer(&peer_attrs) {
            Ok(p) => {
                let ghost pm = p@;
                acc.push(p);
                proof {
                    assert(peers_model(acc@) =~= prev_acc.push(pm));
                }
            },
            Err(e) => {
                return Err(e);
            },
        }
        proof {
            assert(cm.skip(i as int).skip(1) =~= cm.skip(i + 1));
            if spec_peers(cm.skip(i + 1)) is Ok {
                let rest = spec_peers(cm.skip(i + 1)).unwrap();
                assert(prev_acc + (seq![spec_peers(ct).unwrap()[0]] + rest) =~= peers_model(acc@)
                    + rest);
            }
        }
        i = i + 1;
    }
    proof {
        assert(cm.skip(children.len() as int) =~= Seq::<AttrModel>::empty());
        assert(peers_model(acc@) + Seq::<PeerModel>::empty() =~= peers_model(acc@));
    }
    Ok(acc)
}

/// Decodes a whole query response — the accumulated inner messages, in
/// delivery order — into the device snapshot.
#[verifier::loop_isolation(false)]
pub fn decode_device(msgs: &Vec<Vec<u8>>) -> (r: Result<DeviceSnapshot, WgError>)
    ensures
        match r {
            Ok(d) => spec_decode_device(msgs_model(msgs@)) == Ok::<SnapshotModel, WgError>(d@),
            Err(e) => spec_decode_device(msgs_model(msgs@)) == Err::<SnapshotModel, WgError>(e),
        },
{
    let ghost m = msgs_model(msgs@);
    let mut d = DeviceSnapshot {
        ifname: None,
        public_key: None,
        has_private_key: false,
        listen_port: None,
        fwmark: None,
        peers: Vec::new(),
    };
    proof {
        assert(peers_model(d.peers@) =~= Seq::<PeerModel>::empty());
        assert(d@ == spec_empty_snapshot());
        assert(m.skip(0) =~= m);
    }
    let mut i: usize = 0;
    while i < msgs.len()
        invariant
            i <= msgs.len(),
            spec_fold_msgs(d@, m.skip(i as int)) == spec_decode_device(m),
        decreases msgs.len() - i,
    {
        let ghost mt = m.skip(i as int);
        assert(mt[0] == msgs@[i as int]@);
        let msg = &msgs[i];
        if msg.len() < 4 {
            return Err(WgError::Decode);
        }
        let body = copy_range(msg.as_slice(), 4, msg.len());
        assert(body@ == mt[0].skip(4));
        let attrs = match decode_attrs(body.as_slice()) {
            Ok(a) => a,
            Err(_) => {
                return Err(WgError::Decode);
            },
        };
        let ghost am = attrs_model(attrs@);
        let ghost d0 = d@;
        proof {
            assert(am.skip(0) =~= am);
        }
        let mut j: usize = 0;
        while j < attrs.len()
            invariant
                j <= attrs.len(),
                spec_fold_dev(d0, am) == spec_fold_dev(d@, am.skip(j as int)),
            decreases attrs.len() - j,
        {
            let ghost prev = d@;
            let ghost at = am.skip(j as int);
            assert(at[0] == attrs@[j as int]@);
            let a = &attrs[j];
            let t = tag_of(a.tag);
            if t == WGDEVICE_A_IFNAME {
                if a.value.len() > 0 && a.value[a.value.len() - 1] == 0 {
                    d.ifname = Some(copy_range(a.value.as_slice(), 0, a.value.len() - 1));
                } else {
                    d.ifname = Some(copy_range(a.value.as_slice(), 0, a.value.len()));
                    assert(d.ifname.unwrap()@ =~= a.value@);
                }
            } else if t == WGDEVICE_A_PRIVATE_KEY {
                if a.value.len() == KEY_LEN {
                    d.has_private_key = true;
                } else {
                    return Err(WgError::Decode);
                }
            } else if t == WGDEVICE_A_PUBLIC_KEY {
                if a.value.len() == KEY_LEN {
                    d.public_key = Some(copy_range(a.value.as_slice(), 0, a.value.len()));
                    assert(d.public_key.unwrap()@ =~= a.value@);
                } else {
                    return Err(WgError::Decode);
                }
            } else if t == WGDEVICE_A_LISTEN_PORT {
                if a.value.len() == 2 {
                    d.listen_port = Some((a.value[0] as u16) + 256 * (a.value[1] as u16));
                } else {
                    return Err(WgError::Decode);
                }
            } else if t == WGDEVICE_A_FWMARK {
                if a.value.len() == 4 {
                    d.fwmark = Some(crate::bytes::read_u32(a.value.as_slice(), 0));
                } else {
                    return Err(WgError::Decode);
                }
            } else if t == WGDEVICE_A_PEERS {
                let children = match decode_attrs(a.value.as_slice()) {
                    Ok(c) => c,
                    Err(_) => {
                        return Err(WgError::Decode);
                    },
                };
                match decode_peers(&children) {
                    Ok(mut list) => {
                        let ghost lm = peers_model(list@);
                        d.peers.append(&mut list);
                        proof {
                            assert(peers_model(d.peers@) =~= prev.peers + lm);
                        }
                    },
                    Err(e) => {
                        return Err(e);
                    },
                }
            }
            proof {
                assert(spec_dev_step(prev, at[0]) == Ok::<SnapshotModel, WgError>(d@));
                assert(am.skip(j as int).skip(1) =~= am.skip(j + 1));
            }
            j = j + 1;
        }
        proof {
            assert(am.skip(attrs.len() as int) =~= Seq::<AttrModel>::empty());
            assert(m.skip(i as int).skip(1) =~= m.skip(i + 1));
        }
        i = i + 1;
    }
    proof {
        assert(m.skip(msgs.len() as int) =~= Seq::<Seq<u8>>::empty());
    }
    Ok(d)
}

} // verus!
