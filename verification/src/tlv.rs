//! The attribute codec: length-prefixed tag/value records, padded to a
//! four-byte boundary, as the generic netlink bus frames them.  Nested
//! attribute trees recurse by encoding the child records as the value
//! bytes of a container record.

use vstd::prelude::*;

use crate::bytes::{le16, u16_le, read_u16};
use crate::WgError;

verus! {

/// Size of one attribute header: a 16-bit record length and a 16-bit tag.
pub const ATTR_HDRLEN: usize = 4;

/// Records are padded so that each one starts on a four-byte boundary.
pub const ATTR_ALIGN: usize = 4;

/// Largest value that fits behind the 16-bit record length.
pub const ATTR_MAX_VALUE: usize = 0xFFFB;

/// One attribute record: a tag and its raw value bytes.  A nested tree is
/// carried as the encoding of the child records in `value`.
#[derive(Clone, Debug, PartialEq)]
pub struct RawAttr {
    pub tag: u16,
    pub value: Vec<u8>,
}

/// The mathematical model of one attribute record.
pub struct AttrModel {
    pub tag: u16,
    pub value: Seq<u8>,
}

impl View for RawAttr {
    type V = AttrModel;

    open spec fn view(&self) -> AttrModel {
        AttrModel { tag: self.tag, value: self.value@ }
    }
}

/// The models of a vector of records, in order.
pub open spec fn attrs_model(s: Seq<RawAttr>) -> Seq<AttrModel> {
    s.map_values(|a: RawAttr| a@)
}

/// Number of padding bytes after a value of length `n`.
pub open spec fn pad_len(n: int) -> int {
    (4 - n % 4) % 4
}

/// Every record's value fits behind its 16-bit length prefix.
pub open spec fn attrs_wf(s: Seq<AttrModel>) -> bool {
    forall|i: int| 0 <= i < s.len() ==> #[trigger] s[i].value.len() <= ATTR_MAX_VALUE
}

/// The encoding of one record: length, tag, value, zero padding.
pub open spec fn spec_encode_attr(a: AttrModel) -> Seq<u8> {
    u16_le((a.value.len() + 4) as u16) + u16_le(a.tag) + a.value + Seq::new(
        pad_len(a.value.len() as int) as nat,
        |i: int| 0u8,
    )
}

/// The encoding of a sequence of records, back to back.
pub open spec fn spec_encode_attrs(s: Seq<AttrModel>) -> Seq<u8>
    decreases s.len(),
{
    if s.len() == 0 {
        Seq::empty()
    } else {
        spec_encode_attr(s[0]) + spec_encode_attrs(s.skip(1))
    }
}

/// The decoding of a buffer into records.  `None` is a decode error: a
/// record header that does not fit, or a declared length shorter than a
/// header or longer than what remains.  The final record may lack its
/// padding bytes.
pub open spec fn spec_decode_attrs(b: Seq<u8>) -> Option<Seq<AttrModel>>
    decreases b.len(),
{
    if b.len() == 0 {
        Some(Seq::empty())
    } else if b.len() < 4 {
        None
    } else {
        let len = le16(b[0], b[1]) as int;
        if len < 4 || len > b.len() {
            None
        } else {
            let value = b.subrange(4, len);
            let adv = if len + pad_len(len) <= b.len() {
                len + pad_len(len)
            } else {
                b.len() as int
            };
            match spec_decode_attrs(b.skip(adv)) {
                Some(rest) => Some(
                    seq![AttrModel { tag: le16(b[2], b[3]), value }] + rest,
                ),
                None => None,
            }
        }
    }
}

/// Appending a record to a sequence appends its encoding to the bytes.
pub proof fn lemma_encode_push(s: Seq<AttrModel>, a: AttrModel)
    ensures
        spec_encode_attrs(s.push(a)) == spec_encode_attrs(s) + spec_encode_attr(a),
    decreases s.len(),
{
    if s.len() == 0 {
        reveal_with_fuel(spec_encode_attrs, 3);
        assert(s.push(a).skip(1) =~= Seq::<AttrModel>::empty());
        assert(s.push(a)[0] == a);
        assert(spec_encode_attrs(s.push(a)) =~= spec_encode_attrs(s) + spec_encode_attr(a));
    } else {
        lemma_encode_push(s.skip(1), a);
        assert(s.push(a).skip(1) =~= s.skip(1).push(a));
        assert(s.push(a)[0] == s[0]);
        assert(spec_encode_attrs(s.push(a)) == spec_encode_attr(s[0]) + spec_encode_attrs(
            s.skip(1).push(a),
        ));
        assert(spec_encode_attr(s[0]) + (spec_encode_attrs(s.skip(1)) + spec_encode_attr(a)) =~= (
        spec_encode_attr(s[0]) + spec_encode_attrs(s.skip(1))) + spec_encode_attr(a));
        assert(spec_encode_attrs(s.push(a)) =~= spec_encode_attrs(s) + spec_encode_attr(a));
    }
}

/// Round trip: decoding the encoding of any well-formed record sequence
/// gives the records back, including zero-length values and values whose
/// length is not a multiple of the alignment unit.
pub proof fn lemma_attrs_round_trip(s: Seq<AttrModel>)
    requires
        attrs_wf(s),
    ensures
        spec_decode_attrs(spec_encode_attrs(s)) == Some(s),
    decreases s.len(),
{
    if s.len() == 0 {
        assert(spec_decode_attrs(spec_encode_attrs(s)) =~= Some(s));
    } else {
        let a = s[0];
        let ea = spec_encode_attr(a);
        let rest = spec_encode_attrs(s.skip(1));
        let b = spec_encode_attrs(s);
        assert(b == ea + rest);
        let vlen = a.value.len() as int;
        let len = vlen + 4;
        let pad = pad_len(vlen);
        assert(ea.len() == 4 + vlen + pad);
        assert(b[0] == u16_le(len as u16)[0] && b[1] == u16_le(len as u16)[1]);
        assert(le16(b[0], b[1]) == len as u16) by {
            crate::bytes::lemma_le16_round_trip(len as u16);
        }
        assert(pad_len(len) == pad) by {
            assert((vlen + 4) % 4 == vlen % 4) by (nonlinear_arith);
        }
        assert(b[2] == u16_le(a.tag)[0] && b[3] == u16_le(a.tag)[1]);
        assert(le16(b[2], b[3]) == a.tag) by {
            crate::bytes::lemma_le16_round_trip(a.tag);
        }
        assert(b.subrange(4, len) =~= a.value);
        assert(len + pad <= b.len());
        assert(b.skip(len + pad) =~= rest);
        lemma_attrs_round_trip(s.skip(1));
        assert(seq![AttrModel { tag: a.tag, value: a.value }] + s.skip(1) =~= s);
    }
}

/// Round trip through one nesting level: a container record carrying an
/// encoded child tree decodes to the same container, and its value
/// decodes to the same children.
pub proof fn lemma_nested_round_trip(tag: u16, children: Seq<AttrModel>)
    requires
        attrs_wf(children),
        spec_encode_attrs(children).len() <= ATTR_MAX_VALUE,
    ensures
        ({
            let outer = seq![AttrModel { tag, value: spec_encode_attrs(children) }];
            spec_decode_attrs(spec_encode_attrs(outer)) == Some(outer)
                && spec_decode_attrs(outer[0].value) == Some(children)
        }),
{
    let outer = seq![AttrModel { tag, value: spec_encode_attrs(children) }];
    assert(attrs_wf(outer));
    lemma_attrs_round_trip(outer);
    lemma_attrs_round_trip(children);
}

/// The encoding of a single record, and its size.
pub proof fn lemma_encode_singleton(a: AttrModel)
    ensures
        spec_encode_attrs(seq![a]) == spec_encode_attr(a),
        spec_encode_attr(a).len() == 4 + a.value.len() + pad_len(a.value.len() as int),
        0 <= pad_len(a.value.len() as int) < 4,
{
    reveal_with_fuel(spec_encode_attrs, 3);
    assert(seq![a].skip(1) =~= Seq::<AttrModel>::empty());
    assert(spec_encode_attr(a) + Seq::<u8>::empty() =~= spec_encode_attr(a));
}

/// Encodes the records back to back with their padding.
pub fn encode_attrs(attrs: &Vec<RawAttr>) -> (r: Vec<u8>)
    requires
        attrs_wf(attrs_model(attrs@)),
    ensures
        r@ == spec_encode_attrs(attrs_model(attrs@)),
{
    let ghost m = attrs_model(attrs@);
    let mut out: Vec<u8> = Vec::new();
    let mut i: usize = 0;
    while i < attrs.len()
        invariant
            i <= attrs.len(),
            attrs_wf(m),
            m == attrs_model(attrs@),
            out@ == spec_encode_attrs(m.take(i as int)),
        decreases attrs.len() - i,
    {
        let ghost before = out@;
        let a = &attrs[i];
        assert(m[i as int] == a@);
        assert(a@.value.len() <= ATTR_MAX_VALUE);
        let len16: u16 = (a.value.len() + 4) as u16;
        crate::bytes::push_u16(&mut out, len16);
        crate::bytes::push_u16(&mut out, a.tag);
        let mut j: usize = 0;
        let ghost mid = out@;
        while j < a.value.len()
            invariant
                j <= a.value.len(),
                out@ == mid + a.value@.take(j as int),
            decreases a.value.len() - j,
        {
            out.push(a.value[j]);
            assert(out@ =~= mid + a.value@.take(j + 1));
            j = j + 1;
        }
        assert(a.value@.take(a.value.len() as int) =~= a.value@);
        let pad: usize = (4 - (a.value.len() + 4) % 4) % 4;
        assert(pad == pad_len(a@.value.len() as int)) by {
            assert((a@.value.len() + 4) % 4 == a@.value.len() as int % 4) by (nonlinear_arith);
        }
        let ghost mid2 = out@;
        let mut k: usize = 0;
        while k < pad
            invariant
                k <= pad,
                out@ == mid2 + Seq::new(k as nat, |q: int| 0u8),
            decreases pad - k,
        {
            out.push(0u8);
            assert(out@ =~= mid2 + Seq::new((k + 1) as nat, |q: int| 0u8));
            k = k + 1;
        }
        proof {
            assert(out@ =~= before + spec_encode_attr(m[i as int]));
            assert(m.take(i + 1) =~= m.take(i as int).push(m[i as int]));
            lemma_encode_push(m.take(i as int), m[i as int]);
        }
        i = i + 1;
    }
    assert(m.take(attrs.len() as int) =~= m);
    out
}

/// Decodes a buffer into its records, rejecting any record whose declared
/// length is shorter than a header or runs past the end of the buffer.
/// Unknown tags are retained: this layer interprets nothing.
pub fn decode_attrs(b: &[u8]) -> (r: Result<Vec<RawAttr>, WgError>)
    ensures
        match r {
            Ok(attrs) => spec_decode_attrs(b@) == Some(attrs_model(attrs@)),
            Err(e) => spec_decode_attrs(b@) is None && e == WgError::Decode,
        },
{
    let mut acc: Vec<RawAttr> = Vec::new();
    let mut off: usize = 0;
    proof {
        assert(b@.skip(0) =~= b@);
        assert(attrs_model(acc@) =~= Seq::<AttrModel>::empty());
        if spec_decode_attrs(b@) is Some {
            assert(attrs_model(acc@) + spec_decode_attrs(b@).unwrap() =~= spec_decode_attrs(
                b@,
            ).unwrap());
        }
    }
    while off < b.len()
        invariant
            off <= b@.len(),
            spec_decode_attrs(b@) == match spec_decode_attrs(b@.skip(off as int)) {
                Some(rest) => Some(attrs_model(acc@) + rest),
                None => None::<Seq<AttrModel>>,
            },
        decreases b@.len() - off,
    {
        let ghost tail = b@.skip(off as int);
        let remaining = b.len() - off;
        if remaining < 4 {
            assert(tail.len() == remaining && tail.len() > 0);
            return Err(WgError::Decode);
        }
        let len = read_u16(b, off) as usize;
        assert(tail[0] == b@[off as int] && tail[1] == b@[off + 1] && tail[2] == b@[off + 2]
            && tail[3] == b@[off + 3]);
        if len < 4 || len > remaining {
            return Err(WgError::Decode);
        }
        let tag = read_u16(b, off + 2);
        let mut value: Vec<u8> = Vec::new();
        let end = off + len;
        let mut j: usize = off + 4;
        while j < end
            invariant
                off + 4 <= j <= end,
                end == off + len,
                end <= b@.len() <= usize::MAX,
                value@ == b@.subrange(off + 4, j as int),
            decreases end - j,
        {
            value.push(b[j]);
            assert(value@ =~= b@.subrange(off + 4, j + 1));
            j = j + 1;
        }
        assert(value@ =~= tail.subrange(4, len as int));
        let pad = (4 - len % 4) % 4;
        assert(pad == pad_len(len as int));
        let adv: usize = if len + pad <= remaining {
            len + pad
        } else {
            remaining
        };
        let ghost spec_adv = if len + pad_len(len as int) <= tail.len() {
            len + pad_len(len as int)
        } else {
            tail.len() as int
        };
        assert(adv == spec_adv);
        let ghost attr = AttrModel { tag, value: value@ };
        acc.push(RawAttr { tag, value });
        proof {
            assert(b@.skip(off as int).skip(spec_adv) =~= b@.skip(off + spec_adv));
            assert(attrs_model(acc@) =~= attrs_model(acc@.take(acc@.len() - 1)).push(attr));
            if spec_decode_attrs(b@.skip(off + spec_adv)) is Some {
                let rest = spec_decode_attrs(b@.skip(off + spec_adv)).unwrap();
                assert(spec_decode_attrs(tail) == Some(seq![attr] + rest));
                assert(attrs_model(acc@.take(acc@.len() - 1)) + (seq![attr] + rest)
                    =~= attrs_model(acc@) + rest);
            }
        }
        off = off + adv;
    }
    assert(b@.skip(off as int) =~= Seq::<u8>::empty());
    assert(attrs_model(acc@) + Seq::<AttrModel>::empty() =~= attrs_model(acc@));
    Ok(acc)
}

} // verus!
