//! Family resolution: finding, in the control family's answer, the
//! runtime-assigned numeric id of a named protocol family.

use vstd::prelude::*;

use crate::bytes::le16;
use crate::tlv::{AttrModel, attrs_model, spec_decode_attrs, decode_attrs};
use crate::reasm::msgs_model;
use crate::WgError;

verus! {

/// Command of the control family that resolves a family by name.
pub const CTRL_CMD_GETFAMILY: u8 = 3;

/// Protocol version spoken by the control family.
pub const GENL_CTRL_VERSION: u8 = 2;

/// Attribute carrying the resolved 16-bit family id.
pub const CTRL_ATTR_FAMILY_ID: u16 = 1;

/// Attribute carrying the family name being resolved.
pub const CTRL_ATTR_FAMILY_NAME: u16 = 2;

/// An attribute tag with its container and byte-order flag bits removed.
pub open spec fn spec_tag_of(t: u16) -> u16 {
    t & 0x3FFF
}

/// Strips the flag bits of a tag.
pub fn tag_of(t: u16) -> (r: u16)
    ensures
        r == spec_tag_of(t),
{
    t & 0x3FFF
}

/// The first family id among the attributes of one control message, in
/// order: `Ok(Some(id))` when found, `Ok(None)` when no id attribute is
/// present, an error when an id attribute is not two bytes wide.
pub open spec fn spec_scan_ctrl(s: Seq<AttrModel>) -> Result<Option<u16>, WgError>
    decreases s.len(),
{
    if s.len() == 0 {
        Ok(None)
    } else if spec_tag_of(s[0].tag) == CTRL_ATTR_FAMILY_ID {
        if s[0].value.len() == 2 {
            Ok(Some(le16(s[0].value[0], s[0].value[1])))
        } else {
            Err(WgError::Decode)
        }
    } else {
        spec_scan_ctrl(s.skip(1))
    }
}

/// The resolved id of a whole resolution response: the first family id
/// attribute across the accumulated messages, in delivery order.  A
/// message too short for its envelope header or with a malformed
/// attribute record is a decode error; a response that holds no id at
/// all means the family is unavailable.
pub open spec fn spec_resolve(msgs: Seq<Seq<u8>>) -> Result<u16, WgError>
    decreases msgs.len(),
{
    if msgs.len() == 0 {
        Err(WgError::Resolution)
    } else if msgs[0].len() < 4 {
        Err(WgError::Decode)
    } else {
        match spec_decode_attrs(msgs[0].skip(4)) {
            None => Err(WgError::Decode),
            Some(attrs) => match spec_scan_ctrl(attrs) {
                Err(e) => Err(e),
                Ok(Some(id)) => Ok(id),
                Ok(None) => spec_resolve(msgs.skip(1)),
            },
        }
    }
}

/// Round trip through the control vocabulary: a family id written as
/// its two-byte attribute is scanned back as the same id.
pub proof fn lemma_family_id_round_trip(id: u16)
    ensures
        spec_scan_ctrl(
            seq![AttrModel { tag: CTRL_ATTR_FAMILY_ID, value: crate::bytes::u16_le(id) }],
        ) == Ok::<Option<u16>, WgError>(Some(id)),
{
    assert((1u16 & 0x3FFF) == 1u16) by (bit_vector);
    crate::bytes::lemma_le16_round_trip(id);
}

/// Resolution is a function of the response alone: two runs over the
/// same accumulated messages return the same id, or the same failure.
pub proof fn lemma_resolution_idempotent(
    msgs: Seq<Seq<u8>>,
    first: Result<u16, WgError>,
    second: Result<u16, WgError>,
)
    requires
        first == spec_resolve(msgs),
        second == spec_resolve(msgs),
    ensures
        first == second,
{
}

/// Finds the resolved family id in the accumulated control messages.
#[verifier::loop_isolation(false)]
pub fn resolve_family(msgs: &Vec<Vec<u8>>) -> (r: Result<u16, WgError>)
    ensures
        r == spec_resolve(msgs_model(msgs@)),
{
    let ghost m = msgs_model(msgs@);
    let mut i: usize = 0;
    proof {
        assert(m.skip(0) =~= m);
    }
    while i < msgs.len()
        invariant
            i <= msgs.len(),
            m == msgs_model(msgs@),
            spec_resolve(m) == spec_resolve(m.skip(i as int)),
        decreases msgs.len() - i,
    {
        let ghost mt = m.skip(i as int);
        assert(mt[0] == msgs@[i as int]@);
        let msg = &msgs[i];
        if msg.len() < 4 {
            return Err(WgError::Decode);
        }
        let body = crate::bytes::copy_range(msg.as_slice(), 4, msg.len());
        assert(body@ == msgs@[i as int]@.skip(4));
        match decode_attrs(body.as_slice()) {
            Err(_) => {
                return Err(WgError::Decode);
            },
            Ok(attrs) => {
                let ghost am = attrs_model(attrs@);
                let mut j: usize = 0;
                proof {
                    assert(am.skip(0) =~= am);
                }
                while j < attrs.len()
                    invariant
                        j <= attrs.len(),
                        am == attrs_model(attrs@),
                        spec_scan_ctrl(am) == spec_scan_ctrl(am.skip(j as int)),
                    decreases attrs.len() - j,
                {
                    let ghost at = am.skip(j as int);
                    assert(at[0] == attrs@[j as int]@);
                    let a = &attrs[j];
                    if tag_of(a.tag) == CTRL_ATTR_FAMILY_ID {
                        if a.value.len() == 2 {
                            let id = (a.value[0] as u16) + 256 * (a.value[1] as u16);
                            assert(id == le16(at[0].value[0], at[0].value[1]));
                            return Ok(id);
                        } else {
                            return Err(WgError::Decode);
                        }
                    }
                    proof {
                        assert(am.skip(j as int).skip(1) =~= am.skip(j + 1));
                    }
                    j = j + 1;
                }
                assert(am.skip(attrs.len() as int) =~= Seq::<AttrModel>::empty());
            },
        }
        proof {
            assert(m.skip(i as int).skip(1) =~= m.skip(i + 1));
        }
        i = i + 1;
    }
    assert(m.skip(msgs.len() as int) =~= Seq::<Seq<u8>>::empty());
    Err(WgError::Resolution)
}

} // verus!
