//! A verified netlink transaction core for querying a WireGuard device.
//!
//! The crate resolves the generic-netlink family id for the WireGuard
//! protocol, builds the dump request for one interface, reassembles the
//! multipart response and decodes the nested attribute encoding into a
//! point-in-time device snapshot.  All byte-level framing and decoding is
//! implemented and verified here; the socket itself lives with the caller.

use vstd::prelude::*;

pub mod bytes;
pub mod device;
pub mod engine;
pub mod frame;
pub mod reasm;
pub mod resolve;
pub mod tlv;

verus! {

/// Failure taxonomy of one transaction.  A transaction either yields a
/// complete snapshot or fails as a unit with one of these reasons.
#[derive(Clone, Copy, Debug, PartialEq, Eq, Structural)]
pub enum WgError {
    /// A declared frame length is inconsistent with the buffer.
    Framing,
    /// An in-band error frame carried this nonzero raw code.
    Protocol(u32),
    /// An inner message did not carry the family id that was resolved.
    Mismatch,
    /// No family id attribute was found in the resolution response.
    Resolution,
    /// An attribute record or a known attribute's value is malformed.
    Decode,
}

} // verus!
