//! Multipart reassembly: one datagram may carry several framed messages
//! back to back; a response may span several datagrams.  The walk stops
//! at the first terminator: a Done sentinel, or an error frame whose code
//! is zero.  An error frame with a nonzero code fails the exchange.

use vstd::prelude::*;

use crate::bytes::{le32, read_u32};
use crate::frame::{
    NLMSG_DONE, NLMSG_ERROR, NLMSG_NOOP, NLMSG_OVERRUN, NLMSG_MIN_TYPE, spec_parse_header,
    parse_header,
};
use crate::WgError;

verus! {

/// The model of a receive state: the inner message payloads accumulated
/// so far, in delivery order, and whether a terminator has been seen.
pub struct RxModel {
    pub msgs: Seq<Seq<u8>>,
    pub finished: bool,
}

/// The models of a vector of message payloads, in order.
pub open spec fn msgs_model(v: Seq<Vec<u8>>) -> Seq<Seq<u8>> {
    v.map_values(|m: Vec<u8>| m@)
}

/// What one datagram does to a receive state.  Frames are walked by
/// their declared header lengths; a declared length of zero ends the
/// batch for this datagram; a header that does not fit, or a declared
/// length shorter than a header or past the end of the datagram, is a
/// framing error.  An inner message whose type is not `expected` is a
/// protocol violation.  Sentinel types below the first real family id
/// other than Done and Error are skipped.
pub open spec fn spec_rx(st: RxModel, expected: u16, d: Seq<u8>) -> Result<RxModel, WgError>
    decreases d.len(),
{
    if st.finished {
        Ok(st)
    } else if d.len() == 0 {
        Ok(st)
    } else if d.len() < 16 {
        Err(WgError::Framing)
    } else {
        let h = spec_parse_header(d);
        if h.len == 0 {
            Ok(st)
        } else if h.len < 16 || h.len > d.len() {
            Err(WgError::Framing)
        } else {
            let body = d.subrange(16, h.len as int);
            let rest = d.skip(h.len as int);
            if h.ty == NLMSG_DONE {
                Ok(RxModel { msgs: st.msgs, finished: true })
            } else if h.ty == NLMSG_ERROR {
                if body.len() < 4 {
                    Err(WgError::Framing)
                } else if le32(body[0], body[1], body[2], body[3]) == 0 {
                    Ok(RxModel { msgs: st.msgs, finished: true })
                } else {
                    Err(WgError::Protocol(le32(body[0], body[1], body[2], body[3])))
                }
            } else if h.ty == NLMSG_NOOP || h.ty == NLMSG_OVERRUN {
                spec_rx(st, expected, rest)
            } else if h.ty != expected {
                Err(WgError::Mismatch)
            } else {
                spec_rx(RxModel { msgs: st.msgs.push(body), finished: false }, expected, rest)
            }
        }
    }
}

/// The receive accumulator of one phase of the transaction.
pub struct Reassembly {
    pub msgs: Vec<Vec<u8>>,
    pub finished: bool,
}

impl View for Reassembly {
    type V = RxModel;

    open spec fn view(&self) -> RxModel {
        RxModel { msgs: msgs_model(self.msgs@), finished: self.finished }
    }
}

impl Reassembly {
    /// An empty accumulator: nothing received, no terminator seen.
    pub fn new() -> (r: Self)
        ensures
            r@ == (RxModel { msgs: Seq::<Seq<u8>>::empty(), finished: false }),
    {
        let r = Reassembly { msgs: Vec::new(), finished: false };
        proof {
            assert(msgs_model(r.msgs@) =~= Seq::<Seq<u8>>::empty());
        }
        r
    }

    /// Walks the frames of one datagram, accumulating inner messages,
    /// exactly as `spec_rx` says.  On an error the whole exchange is
    /// failed and the accumulated state is discarded by the caller, so
    /// nothing further is said of it here.
    pub fn push_datagram(&mut self, expected: u16, d: &[u8]) -> (r: Result<(), WgError>)
        requires
            !old(self)@.finished,
        ensures
            match r {
                Ok(()) => spec_rx(old(self)@, expected, d@) == Ok::<RxModel, WgError>(
                    final(self)@,
                ),
                Err(e) => spec_rx(old(self)@, expected, d@) == Err::<RxModel, WgError>(e),
            },
    {
        let n = d.len();
        let mut off: usize = 0;
        proof {
            assert(d@.skip(0) =~= d@);
        }
        while off < n
            invariant
                off <= n == d@.len(),
                !self@.finished,
                spec_rx(old(self)@, expected, d@) == spec_rx(self@, expected, d@.skip(off as int)),
            decreases n - off,
        {
            let ghost tail = d@.skip(off as int);
            let ghost cur = self@;
            let remaining = n - off;
            if remaining < 16 {
                return Err(WgError::Framing);
            }
            let h = parse_header(d, off);
            if h.len == 0 {
                return Ok(());
            }
            let hlen = h.len as usize;
            if hlen < 16 || hlen > remaining {
                return Err(WgError::Framing);
            }
            let mut body: Vec<u8> = Vec::new();
            let end = off + hlen;
            let mut j: usize = off + 16;
            while j < end
                invariant
                    off + 16 <= j <= end,
                    end <= d@.len() <= usize::MAX,
                    body@ == d@.subrange(off + 16, j as int),
                decreases end - j,
            {
                body.push(d[j]);
                assert(body@ =~= d@.subrange(off + 16, j + 1));
                j = j + 1;
            }
            proof {
                assert(body@ =~= tail.subrange(16, hlen as int));
                assert(d@.skip(off as int).skip(hlen as int) =~= d@.skip(off + hlen));
            }
            if h.ty == NLMSG_DONE {
                self.finished = true;
                return Ok(());
            }
            if h.ty == NLMSG_ERROR {
                if body.len() < 4 {
                    return Err(WgError::Framing);
                }
                let code = read_u32(body.as_slice(), 0);
                if code == 0 {
                    self.finished = true;
                    return Ok(());
                } else {
                    return Err(WgError::Protocol(code));
                }
            }
            if h.ty == NLMSG_NOOP || h.ty == NLMSG_OVERRUN {
                // skipped: carries nothing for this exchange
            } else if h.ty != expected {
                return Err(WgError::Mismatch);
            } else {
                self.msgs.push(body);
                proof {
                    assert(msgs_model(self.msgs@) =~= cur.msgs.push(tail.subrange(
                        16,
                        hlen as int,
                    )));
                }
            }
            off = off + hlen;
        }
        proof {
            assert(d@.skip(off as int) =~= Seq::<u8>::empty());
        }
        Ok(())
    }
}

/// A datagram that is a whole number of well-formed, non-terminating
/// frames: each declared length covers at least a header and lies within
/// the datagram, and each type is a skipped sentinel or the expected
/// family id — never Done and never an error frame.
pub open spec fn frames_wf(d: Seq<u8>, expected: u16) -> bool
    decreases d.len(),
{
    if d.len() == 0 {
        true
    } else if d.len() < 16 {
        false
    } else {
        let h = spec_parse_header(d);
        &&& 16 <= h.len <= d.len()
        &&& (h.ty == NLMSG_NOOP || h.ty == NLMSG_OVERRUN || h.ty == expected)
        &&& frames_wf(d.skip(h.len as int), expected)
    }
}

/// Splitting a batch at a frame boundary changes nothing: processing the
/// two halves one after the other leaves the same state as processing
/// their concatenation, as long as the first half holds no terminator.
pub proof fn lemma_rx_split(st: RxModel, expected: u16, d1: Seq<u8>, d2: Seq<u8>)
    requires
        !st.finished,
        expected >= NLMSG_MIN_TYPE,
        frames_wf(d1, expected),
    ensures
        spec_rx(st, expected, d1) is Ok,
        !spec_rx(st, expected, d1).unwrap().finished,
        spec_rx(st, expected, d1 + d2) == spec_rx(
            spec_rx(st, expected, d1).unwrap(),
            expected,
            d2,
        ),
    decreases d1.len(),
{
    if d1.len() == 0 {
        assert(d1 + d2 =~= d2);
    } else {
        let h = spec_parse_header(d1);
        let c = d1 + d2;
        assert(forall|i: int| 0 <= i < d1.len() ==> c[i] == d1[i]);
        assert(spec_parse_header(c) == h);
        assert(h.len >= 16 && h.len <= d1.len());
        let body1 = d1.subrange(16, h.len as int);
        let bodyc = c.subrange(16, h.len as int);
        assert(bodyc =~= body1);
        assert(c.skip(h.len as int) =~= d1.skip(h.len as int) + d2);
        if h.ty == NLMSG_NOOP || h.ty == NLMSG_OVERRUN {
            lemma_rx_split(st, expected, d1.skip(h.len as int), d2);
        } else {
            assert(h.ty == expected);
            let st1 = RxModel { msgs: st.msgs.push(body1), finished: false };
            lemma_rx_split(st1, expected, d1.skip(h.len as int), d2);
        }
    }
}

/// Folds a whole response, datagram by datagram, over `spec_rx`.
pub open spec fn spec_rx_all(st: RxModel, expected: u16, ds: Seq<Seq<u8>>) -> Result<
    RxModel,
    WgError,
>
    decreases ds.len(),
{
    if ds.len() == 0 {
        Ok(st)
    } else {
        match spec_rx(st, expected, ds[0]) {
            Ok(st1) => spec_rx_all(st1, expected, ds.skip(1)),
            Err(e) => Err(e),
        }
    }
}

/// All datagrams of a response laid end to end.
pub open spec fn concat_all(ds: Seq<Seq<u8>>) -> Seq<u8>
    decreases ds.len(),
{
    if ds.len() == 0 {
        Seq::empty()
    } else {
        ds[0] + concat_all(ds.skip(1))
    }
}

/// Multipart reassembly is insensitive to how a response is cut into
/// datagrams: a response split across any number of datagrams, with the
/// terminator only in the final one, leaves the engine in the same state
/// as the same frames delivered as a single datagram.
pub proof fn lemma_multipart_reassembly(st: RxModel, expected: u16, ds: Seq<Seq<u8>>)
    requires
        !st.finished,
        expected >= NLMSG_MIN_TYPE,
        forall|i: int| 0 <= i < ds.len() - 1 ==> frames_wf(#[trigger] ds[i], expected),
    ensures
        spec_rx_all(st, expected, ds) == spec_rx(st, expected, concat_all(ds)),
    decreases ds.len(),
{
    if ds.len() == 0 {
    } else if ds.len() == 1 {
        reveal_with_fuel(concat_all, 2);
        assert(ds.skip(1).len() == 0);
        assert(concat_all(ds) =~= ds[0]);
        match spec_rx(st, expected, ds[0]) {
            Ok(st1) => {
                assert(spec_rx_all(st1, expected, ds.skip(1)) == Ok::<RxModel, WgError>(st1));
            },
            Err(_) => {},
        }
    } else {
        assert(frames_wf(ds[0], expected));
        lemma_rx_split(st, expected, ds[0], concat_all(ds.skip(1)));
        let st1 = spec_rx(st, expected, ds[0]).unwrap();
        assert(forall|i: int|
            0 <= i < ds.skip(1).len() - 1 ==> frames_wf(#[trigger] ds.skip(1)[i], expected));
        lemma_multipart_reassembly(st1, expected, ds.skip(1));
    }
}

/// An error frame settles the whole exchange by itself: a nonzero code
/// fails it with that code; a zero code terminates it successfully with
/// exactly the messages accumulated before it.
pub proof fn lemma_error_frame(st: RxModel, expected: u16, d: Seq<u8>)
    requires
        !st.finished,
        d.len() >= 20,
        spec_parse_header(d).ty == NLMSG_ERROR,
        20 <= spec_parse_header(d).len <= d.len(),
    ensures
        le32(d[16], d[17], d[18], d[19]) != 0 ==> spec_rx(st, expected, d) == Err::<
            RxModel,
            WgError,
        >(WgError::Protocol(le32(d[16], d[17], d[18], d[19]))),
        le32(d[16], d[17], d[18], d[19]) == 0 ==> spec_rx(st, expected, d) == Ok::<
            RxModel,
            WgError,
        >(RxModel { msgs: st.msgs, finished: true }),
{
    let h = spec_parse_header(d);
    let body = d.subrange(16, h.len as int);
    assert(body.len() >= 4);
    assert(body[0] == d[16] && body[1] == d[17] && body[2] == d[18] && body[3] == d[19]);
}

} // verus!
