//! One-block archives: a single root block of a given size, every byte 1.
use vstd::prelude::*;
use crate::cid::{blake2b_256_of, build_identifier, CidValue, BLAKE2B_256, RAW};
use crate::encoder::{
    archive_bytes, lemma_encoder_output_reads_back, parse_archive, Block, CarEncoder,
};
use crate::header::{roots_encodable, ContainerHeader};
use crate::varint::varint;

verus! {

/// The byte that fills the root block.
pub const FILL_BYTE: u8 = 1;

pub open spec fn filled(size: nat, value: u8) -> Seq<u8> {
    Seq::new(size, |i: int| value)
}

/// The identifier of `data` as raw bytes under BLAKE2b-256.
pub open spec fn raw_identifier(data: Seq<u8>) -> CidValue {
    CidValue { codec: RAW, hash_code: BLAKE2B_256, digest: blake2b_256_of(data) }
}

/// The archive of one root block of `size` bytes of `FILL_BYTE`: version 1,
/// that block's identifier as the only root, then that block's frame.
pub open spec fn single_block_archive(size: nat) -> Seq<u8> {
    let data = filled(size, FILL_BYTE);
    archive_bytes(1, seq![raw_identifier(data)], seq![(raw_identifier(data), data)])
}

/// A block of `size` bytes, each `value`.
pub fn filled_block(size: usize, value: u8) -> (r: Vec<u8>)
    ensures
        r@ == filled(size as nat, value),
{
    let mut r: Vec<u8> = Vec::new();
    let mut i: usize = 0;
    while i < size
        invariant
            i <= size,
            r@ == filled(i as nat, value),
        decreases size - i,
    {
        r.push(value);
        i = i + 1;
        assert(r@ =~= filled(i as nat, value));
    }
    r
}

/// Builds the archive of one root block of `size` bytes of `FILL_BYTE`. It
/// reads back as that block's identifier as the only root, then exactly one
/// block: that identifier and those bytes.
pub fn create_archive(size: usize) -> (r: Vec<u8>)
    ensures
        r@ == single_block_archive(size as nat),
        parse_archive(r@) == Some(
            (
                1u64,
                seq![raw_identifier(filled(size as nat, FILL_BYTE))],
                seq![
                    (
                        raw_identifier(filled(size as nat, FILL_BYTE)),
                        filled(size as nat, FILL_BYTE),
                    ),
                ],
            ),
        ),
{
    let block = filled_block(size, FILL_BYTE);
    let built = build_identifier(block.as_slice(), RAW, BLAKE2B_256);
    let cid = match built {
        Ok(c) => c,
        Err(_) => {
            // the codes above are in the registry
            proof {
                assert(false);
            }
            return Vec::new();
        },
    };
    let ghost c = cid@;
    let ghost data = block@;
    assert(c == raw_identifier(data));
    let header = ContainerHeader { version: 1, roots: vec![cid.duplicate()] };
    let mut encoder = CarEncoder::new(&header);
    assert(encoder.roots() =~= seq![c]);
    let _ = encoder.receive_block(Block { cid, data: block });
    encoder.close();
    assert(encoder.received() =~= seq![(c, data)]);
    proof {
        reveal_with_fuel(varint, 4);
        assert(varint(RAW as nat).len() == 1);
        assert(varint(BLAKE2B_256 as nat).len() == 3);
        assert(varint(32).len() == 1);
        assert(roots_encodable(encoder.roots()));
        lemma_encoder_output_reads_back(&encoder);
    }
    match encoder.take_output() {
        Some(out) => out,
        None => Vec::new(),
    }
}

} // verus!
