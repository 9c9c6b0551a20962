//! The transaction engine: the two-phase exchange that first resolves
//! the device protocol's family id over the control family, then dumps
//! one device scoped to that id.  The caller owns the endpoint and only
//! moves datagrams; every decision is made, and verified, here.

use vstd::prelude::*;

use crate::bytes::copy_range;
use crate::tlv::{RawAttr, AttrModel, attrs_model, attrs_wf, lemma_encode_singleton};
use crate::frame::{
    GENL_ID_CTRL, NLM_F_REQUEST, NLM_F_ACK, NLM_F_DUMP, build_message, spec_message,
};
use crate::reasm::{Reassembly, RxModel, spec_rx};
use crate::resolve::{
    spec_resolve, resolve_family, CTRL_CMD_GETFAMILY, GENL_CTRL_VERSION, CTRL_ATTR_FAMILY_NAME,
};
use crate::device::{
    DeviceSnapshot, spec_decode_device, decode_device, WG_CMD_GET_DEVICE, WG_GENL_VERSION,
    WGDEVICE_A_IFNAME,
};
use crate::WgError;

verus! {

/// Sequence number of the resolution request.
pub const RESOLVE_SEQ: u32 = 1;

/// Sequence number of the device query.
pub const QUERY_SEQ: u32 = 2;

/// Longest interface name the request encoding can carry.
pub const IFNAME_MAX: usize = 0xFFFA;

/// The name under which the device protocol registers its family.
pub open spec fn spec_wg_family_name() -> Seq<u8> {
    seq![119u8, 105u8, 114u8, 101u8, 103u8, 117u8, 97u8, 114u8, 100u8]
}

/// The bytes of the device protocol's family name, `wireguard`.
pub fn wg_family_name() -> (r: Vec<u8>)
    ensures
        r@ == spec_wg_family_name(),
{
    let mut v: Vec<u8> = Vec::new();
    v.push(119);
    v.push(105);
    v.push(114);
    v.push(101);
    v.push(103);
    v.push(117);
    v.push(97);
    v.push(114);
    v.push(100);
    proof {
        assert(v@ =~= spec_wg_family_name());
    }
    v
}

/// The control request that resolves `name`: a get-family command with
/// one family-name attribute (terminator byte appended), request and
/// acknowledge flags, sent to the control family.
pub open spec fn spec_family_request(name: Seq<u8>, seq: u32) -> Seq<u8> {
    spec_message(
        GENL_ID_CTRL,
        NLM_F_REQUEST | NLM_F_ACK,
        seq,
        CTRL_CMD_GETFAMILY,
        GENL_CTRL_VERSION,
        seq![AttrModel { tag: CTRL_ATTR_FAMILY_NAME, value: name + seq![0u8] }],
    )
}

/// The dump request for one device: a get-device command with one
/// interface-name attribute, request, acknowledge and dump flags, sent
/// to the resolved family.
pub open spec fn spec_device_request(family: u16, ifname: Seq<u8>, seq: u32) -> Seq<u8> {
    spec_message(
        family,
        NLM_F_REQUEST | NLM_F_ACK | NLM_F_DUMP,
        seq,
        WG_CMD_GET_DEVICE,
        WG_GENL_VERSION,
        seq![AttrModel { tag: WGDEVICE_A_IFNAME, value: ifname + seq![0u8] }],
    )
}

/// Builds the family-resolution request.
pub fn build_family_request(name: &Vec<u8>, seq: u32) -> (r: Vec<u8>)
    requires
        name@.len() <= IFNAME_MAX,
    ensures
        r@ == spec_family_request(name@, seq),
{
    let mut value = copy_range(name.as_slice(), 0, name.len());
    value.push(0);
    let ghost a = AttrModel { tag: CTRL_ATTR_FAMILY_NAME, value: name@ + seq![0u8] };
    assert(value@ =~= a.value);
    let mut attrs: Vec<RawAttr> = Vec::new();
    attrs.push(RawAttr { tag: CTRL_ATTR_FAMILY_NAME, value });
    proof {
        assert(attrs_model(attrs@) =~= seq![a]);
        lemma_encode_singleton(a);
        assert(attrs_wf(attrs_model(attrs@)));
    }
    build_message(GENL_ID_CTRL, NLM_F_REQUEST | NLM_F_ACK, seq, CTRL_CMD_GETFAMILY,
        GENL_CTRL_VERSION, &attrs)
}

/// Builds the device-query request for the resolved family.
pub fn build_device_request(family: u16, ifname: &Vec<u8>, seq: u32) -> (r: Vec<u8>)
    requires
        ifname@.len() <= IFNAME_MAX,
    ensures
        r@ == spec_device_request(family, ifname@, seq),
{
    let mut value = copy_range(ifname.as_slice(), 0, ifname.len());
    value.push(0);
    let ghost a = AttrModel { tag: WGDEVICE_A_IFNAME, value: ifname@ + seq![0u8] };
    assert(value@ =~= a.value);
    let mut attrs: Vec<RawAttr> = Vec::new();
    attrs.push(RawAttr { tag: WGDEVICE_A_IFNAME, value });
    proof {
        assert(attrs_model(attrs@) =~= seq![a]);
        lemma_encode_singleton(a);
        assert(attrs_wf(attrs_model(attrs@)));
    }
    build_message(family, NLM_F_REQUEST | NLM_F_ACK | NLM_F_DUMP, seq, WG_CMD_GET_DEVICE,
        WG_GENL_VERSION, &attrs)
}

/// Where one transaction stands.  The two active phases each split into
/// a send step and a receive step with explicit exits, so the multipart
/// and termination edge cases stay visible.
pub enum TxState {
    ResolveSend,
    ResolveRecv,
    QuerySend { family: u16 },
    QueryRecv { family: u16 },
    Done { snapshot: DeviceSnapshot },
    Failed { error: WgError },
}

/// One two-phase transaction: resolve the family, then query the device.
/// No cross-call state survives it; a failed exchange fails as a unit.
pub struct Transaction {
    pub ifname: Vec<u8>,
    pub state: TxState,
    pub reasm: Reassembly,
}

impl Transaction {
    /// The engine's invariant: the name fits a request, and while a
    /// phase is receiving, its accumulator has not seen a terminator.
    pub open spec fn inv(self) -> bool {
        &&& self.ifname@.len() <= IFNAME_MAX
        &&& ((self.state is ResolveRecv || self.state is QueryRecv) ==> !self.reasm@.finished)
    }

    /// Starts a transaction for one interface name, used verbatim.
    pub fn new(ifname: Vec<u8>) -> (r: Transaction)
        requires
            ifname@.len() <= IFNAME_MAX,
        ensures
            r.inv(),
            r.state is ResolveSend,
            r.ifname@ == ifname@,
    {
        Transaction { ifname, state: TxState::ResolveSend, reasm: Reassembly::new() }
    }

    /// True while the transaction still needs to send or receive.
    pub fn is_active(&self) -> (r: bool)
        ensures
            r == !(self.state is Done || self.state is Failed),
    {
        match &self.state {
            TxState::Done { .. } => false,
            TxState::Failed { .. } => false,
            _ => true,
        }
    }

    /// True while the transaction waits for a datagram.
    pub fn needs_datagram(&self) -> (r: bool)
        ensures
            r == (self.state is ResolveRecv || self.state is QueryRecv),
    {
        match &self.state {
            TxState::ResolveRecv => true,
            TxState::QueryRecv { .. } => true,
            _ => false,
        }
    }

    /// Hands out the request to send now, if one is due, and moves the
    /// phase to its receive step with a fresh accumulator.
    pub fn take_request(&mut self) -> (r: Option<Vec<u8>>)
        requires
            old(self).inv(),
        ensures
            final(self).inv(),
            final(self).ifname@ == old(self).ifname@,
            match old(self).state {
                TxState::ResolveSend => {
                    &&& r matches Some(req) && req@ == spec_family_request(
                        spec_wg_family_name(),
                        RESOLVE_SEQ,
                    )
                    &&& final(self).state is ResolveRecv
                    &&& final(self).reasm@ == (RxModel {
                        msgs: Seq::<Seq<u8>>::empty(),
                        finished: false,
                    })
                },
                TxState::QuerySend { family } => {
                    &&& r matches Some(req) && req@ == spec_device_request(
                        family,
                        old(self).ifname@,
                        QUERY_SEQ,
                    )
                    &&& final(self).state matches TxState::QueryRecv { family: f } && f == family
                    &&& final(self).reasm@ == (RxModel {
                        msgs: Seq::<Seq<u8>>::empty(),
                        finished: false,
                    })
                },
                _ => r is None && *final(self) == *old(self),
            },
    {
        let mut req: Option<Vec<u8>> = None;
        let mut next: Option<TxState> = None;
        match &self.state {
            TxState::ResolveSend => {
                let name = wg_family_name();
                req = Some(build_family_request(&name, RESOLVE_SEQ));
                next = Some(TxState::ResolveRecv);
            },
            TxState::QuerySend { family } => {
                req = Some(build_device_request(*family, &self.ifname, QUERY_SEQ));
                next = Some(TxState::QueryRecv { family: *family });
            },
            _ => {},
        }
        match next {
            Some(st) => {
                self.state = st;
                self.reasm = Reassembly::new();
            },
            None => {},
        }
        req
    }

    /// Feeds one received datagram to the phase that waits for it.  The
    /// accumulator advances exactly as `spec_rx` says; when the phase's
    /// terminator arrives, the resolution response yields the family id
    /// (or the transaction fails), and the query response yields the
    /// snapshot (or the transaction fails).  Any error leaves the
    /// transaction failed with that reason; no partial result survives.
    pub fn on_datagram(&mut self, d: &[u8]) -> (r: Result<(), WgError>)
        requires
            old(self).inv(),
            old(self).state is ResolveRecv || old(self).state is QueryRecv,
        ensures
            final(self).inv(),
            final(self).ifname@ == old(self).ifname@,
            match old(self).state {
                TxState::ResolveRecv => match spec_rx(old(self).reasm@, GENL_ID_CTRL, d@) {
                    Err(e) => r == Err::<(), WgError>(e) && (final(self).state matches
                    TxState::Failed { error } && error == e),
                    Ok(st) => if !st.finished {
                        &&& r is Ok
                        &&& final(self).state is ResolveRecv
                        &&& final(self).reasm@ == st
                    } else {
                        match spec_resolve(st.msgs) {
                            Ok(id) => r is Ok && (final(self).state matches TxState::QuerySend {
                                family,
                            } && family == id),
                            Err(e) => r == Err::<(), WgError>(e) && (final(self).state matches
                            TxState::Failed { error } && error == e),
                        }
                    },
                },
                TxState::QueryRecv { family } => match spec_rx(old(self).reasm@, family, d@) {
                    Err(e) => r == Err::<(), WgError>(e) && (final(self).state matches
                    TxState::Failed { error } && error == e),
                    Ok(st) => if !st.finished {
                        &&& r is Ok
                        &&& final(self).state matches TxState::QueryRecv { family: f } && f
                            == family
                        &&& final(self).reasm@ == st
                    } else {
                        match spec_decode_device(st.msgs) {
                            Ok(snap) => r is Ok && (final(self).state matches TxState::Done {
                                snapshot,
                            } && snapshot@ == snap),
                            Err(e) => r == Err::<(), WgError>(e) && (final(self).state matches
                            TxState::Failed { error } && error == e),
                        }
                    },
                },
                _ => true,
            },
    {
        let resolving: bool = match &self.state {
            TxState::ResolveRecv => true,
            _ => false,
        };
        let expected: u16 = match &self.state {
            TxState::ResolveRecv => GENL_ID_CTRL,
            TxState::QueryRecv { family } => *family,
            _ => 0,
        };
        match self.reasm.push_datagram(expected, d) {
            Err(e) => {
                self.state = TxState::Failed { error: e };
                return Err(e);
            },
            Ok(()) => {},
        }
        if !self.reasm.finished {
            return Ok(());
        }
        if resolving {
            match resolve_family(&self.reasm.msgs) {
                Ok(id) => {
                    self.state = TxState::QuerySend { family: id };
                    self.reasm = Reassembly::new();
                    Ok(())
                },
                Err(e) => {
                    self.state = TxState::Failed { error: e };
                    Err(e)
                },
            }
        } else {
            match decode_device(&self.reasm.msgs) {
                Ok(snap) => {
                    self.state = TxState::Done { snapshot: snap };
                    self.reasm = Reassembly::new();
                    Ok(())
                },
                Err(e) => {
                    self.state = TxState::Failed { error: e };
                    Err(e)
                },
            }
        }
    }

    /// The transaction's outcome, once it is no longer active: either
    /// the complete snapshot or the failure reason, never part of one.
    pub fn into_result(self) -> (r: Result<DeviceSnapshot, WgError>)
        requires
            self.state is Done || self.state is Failed,
        ensures
            match self.state {
                TxState::Done { snapshot } => r == Ok::<DeviceSnapshot, WgError>(snapshot),
                TxState::Failed { error } => r == Err::<DeviceSnapshot, WgError>(error),
                _ => true,
            },
    {
        match self.state {
            TxState::Done { snapshot } => Ok(snapshot),
            TxState::Failed { error } => Err(error),
            _ => Err(WgError::Resolution),
        }
    }
}

} // verus!
