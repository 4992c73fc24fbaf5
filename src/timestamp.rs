//! TAI64N timestamps: 8 bytes of big-endian seconds (offset by 2^62), then
//! 4 bytes of big-endian nanoseconds. Their order is the order of the pair.
use vstd::prelude::*;
use crate::bytes::{decode_u32, le_u32};

verus! {

/// The big-endian integer of four bytes.
pub open spec fn be_u32(b: Seq<u8>) -> nat {
    le_u32(seq![b[3], b[2], b[1], b[0]])
}

/// The seconds label of a TAI64N timestamp.
pub open spec fn tai_secs(ts: Seq<u8>) -> nat {
    be_u32(ts.subrange(0, 4)) * 0x1_0000_0000 + be_u32(ts.subrange(4, 8))
}

/// The nanoseconds of a TAI64N timestamp.
pub open spec fn tai_nanos(ts: Seq<u8>) -> nat {
    be_u32(ts.subrange(8, 12))
}

/// `a` is strictly later than `b`.
pub open spec fn ts_after(a: Seq<u8>, b: Seq<u8>) -> bool {
    tai_secs(a) > tai_secs(b) || (tai_secs(a) == tai_secs(b) && tai_nanos(a) > tai_nanos(b))
}

/// Whether an Init with timestamp `ts` passes the anti-replay rule, given the
/// latest timestamp accepted from the peer.
pub open spec fn ts_fresh(last: Option<Seq<u8>>, ts: Seq<u8>) -> bool {
    match last {
        Some(l) => ts_after(ts, l),
        None => true,
    }
}

/// The latest accepted timestamp after a run of Inits from one peer.
pub open spec fn ts_run(last: Option<Seq<u8>>, tss: Seq<Seq<u8>>) -> Option<Seq<u8>>
    decreases tss.len(),
{
    if tss.len() == 0 {
        last
    } else {
        let l = ts_run(last, tss.drop_last());
        if ts_fresh(l, tss.last()) { Some(tss.last()) } else { l }
    }
}

/// Timestamp monotonicity: after any run of Inits from a peer, replaying the
/// timestamp of any of them fails the anti-replay rule.
pub proof fn lemma_timestamp_replay(last: Option<Seq<u8>>, tss: Seq<Seq<u8>>, i: int)
    requires
        0 <= i < tss.len(),
    ensures
        !ts_fresh(ts_run(last, tss), tss[i]),
    decreases tss.len(),
{
    let init = tss.drop_last();
    let l = ts_run(last, init);
    if i < tss.len() - 1 {
        lemma_timestamp_replay(last, init, i);
        assert(init[i] == tss[i]);
    }
}

/// Reads the seconds label of a timestamp.
pub fn secs(ts: &[u8; 12]) -> (r: u64)
    ensures
        r as nat == tai_secs(ts@),
{
    let hi = decode_u32(&[ts[3], ts[2], ts[1], ts[0]]);
    let lo = decode_u32(&[ts[7], ts[6], ts[5], ts[4]]);
    assert(ts@.subrange(0, 4) =~= seq![ts[0], ts[1], ts[2], ts[3]]);
    assert(ts@.subrange(4, 8) =~= seq![ts[4], ts[5], ts[6], ts[7]]);
    assert(seq![ts[3], ts[2], ts[1], ts[0]] =~= [ts[3], ts[2], ts[1], ts[0]]@);
    assert(seq![ts[7], ts[6], ts[5], ts[4]] =~= [ts[7], ts[6], ts[5], ts[4]]@);
    (hi as u64) * 0x1_0000_0000 + lo as u64
}

/// Reads the nanoseconds of a timestamp.
pub fn nanos(ts: &[u8; 12]) -> (r: u32)
    ensures
        r as nat == tai_nanos(ts@),
{
    assert(ts@.subrange(8, 12) =~= seq![ts[8], ts[9], ts[10], ts[11]]);
    assert(seq![ts[11], ts[10], ts[9], ts[8]] =~= [ts[11], ts[10], ts[9], ts[8]]@);
    decode_u32(&[ts[11], ts[10], ts[9], ts[8]])
}

/// Whether `a` is strictly later than `b`.
pub fn is_after(a: &[u8; 12], b: &[u8; 12]) -> (r: bool)
    ensures
        r == ts_after(a@, b@),
{
    let sa = secs(a);
    let sb = secs(b);
    sa > sb || (sa == sb && nanos(a) > nanos(b))
}

} // verus!
