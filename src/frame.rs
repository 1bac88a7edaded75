//! Block frames: a varint length, then the identifier's binary form, then the
//! payload.
use vstd::prelude::*;
use crate::bytes::append_bytes;
use crate::cid::{cid_bytes, lemma_cid_round_trip, parse_cid, CidValue, ContentIdentifier};
use crate::varint::{lemma_varint_round_trip, parse_varint, push_varint, varint};

verus! {

/// What a frame's length prefix covers.
pub open spec fn frame_body(c: CidValue, data: Seq<u8>) -> Seq<u8> {
    cid_bytes(c) + data
}

pub open spec fn frame_bytes(c: CidValue, data: Seq<u8>) -> Seq<u8> {
    varint(frame_body(c, data).len()) + frame_body(c, data)
}

/// Reads one frame from the front of `s`: its identifier and payload, and how
/// many bytes it took.
pub open spec fn parse_frame(s: Seq<u8>) -> Option<((CidValue, Seq<u8>), nat)> {
    match parse_varint(s) {
        None => None,
        Some((len, k)) => {
            if k + len <= s.len() {
                let body = s.subrange(k as int, k + len as int);
                match parse_cid(body) {
                    None => None,
                    Some((c, m)) => Some(((c, body.skip(m as int)), (k + len) as nat)),
                }
            } else {
                None
            }
        },
    }
}

/// A frame is read back, identifier and payload, from the front of any byte
/// string it starts.
pub proof fn lemma_frame_round_trip(c: CidValue, data: Seq<u8>, rest: Seq<u8>)
    ensures
        parse_frame(frame_bytes(c, data) + rest) == Some(
            ((c, data), frame_bytes(c, data).len()),
        ),
{
    let body = frame_body(c, data);
    let s = frame_bytes(c, data) + rest;
    lemma_varint_round_trip(body.len(), body + rest);
    assert(s =~= varint(body.len()) + (body + rest));
    let k = varint(body.len()).len();
    assert(s.subrange(k as int, k + body.len() as int) =~= body);
    lemma_cid_round_trip(c, data);
    assert(body.skip(cid_bytes(c).len() as int) =~= data);
}

/// Appends the frame of one block to `out`.
pub fn write_frame(out: &mut Vec<u8>, cid: &ContentIdentifier, data: &[u8])
    ensures
        final(out)@ == old(out)@ + frame_bytes(cid@, data@),
{
    let ghost before = out@;
    let mut body: Vec<u8> = Vec::new();
    cid.write_bytes(&mut body);
    append_bytes(&mut body, data);
    assert(body@ =~= frame_body(cid@, data@));
    push_varint(out, body.len() as u64);
    append_bytes(out, body.as_slice());
    assert(out@ =~= before + frame_bytes(cid@, data@));
}

/// The frame of one block.
pub fn serialize_frame(cid: &ContentIdentifier, data: &[u8]) -> (r: Vec<u8>)
    ensures
        r@ == frame_bytes(cid@, data@),
{
    let mut r: Vec<u8> = Vec::new();
    write_frame(&mut r, cid, data);
    assert(r@ =~= frame_bytes(cid@, data@));
    r
}

} // verus!
