//! Content identifiers (CIDv1): a content-type code and a multihash of the
//! block's bytes.
use vstd::prelude::*;
use crate::bytes::{append_bytes, copy_bytes};
use crate::error::CarError;
use crate::varint::{lemma_varint_round_trip, parse_varint, push_varint, varint};
use libipld::multihash::{Code, MultihashDigest};

verus! {

/// Content-type code of raw bytes.
pub const RAW: u64 = 0x55;

/// Content-type code of DAG-CBOR records.
pub const DAG_CBOR: u64 = 0x71;

/// Multihash code of BLAKE2b with a 256-bit digest.
pub const BLAKE2B_256: u64 = 0xb220;

/// Version tag of every identifier built here.
pub const CID_VERSION: u8 = 1;

/// The 32-byte BLAKE2b-256 digest of a byte string.
pub uninterp spec fn blake2b_256_of(data: Seq<u8>) -> Seq<u8>;

/// Relies on libipld's `Code::Blake2b256.digest`, which hashes `data` with
/// BLAKE2b set to a 32-byte output; `digest()` hands back those 32 bytes.
#[verifier::external_body]
fn blake2b_256(data: &[u8]) -> (r: Vec<u8>)
    ensures
        r@ == blake2b_256_of(data@),
        r@.len() == 32,
{
    Code::Blake2b256.digest(data).digest().to_vec()
}

/// What an identifier holds, as plain values.
pub struct CidValue {
    pub codec: u64,
    pub hash_code: u64,
    pub digest: Seq<u8>,
}

/// A version-1 content identifier.
#[derive(Debug, PartialEq, Eq)]
pub struct ContentIdentifier {
    pub codec: u64,
    pub hash_code: u64,
    pub digest: Vec<u8>,
}

impl View for ContentIdentifier {
    type V = CidValue;

    open spec fn view(&self) -> CidValue {
        CidValue { codec: self.codec, hash_code: self.hash_code, digest: self.digest@ }
    }
}

pub open spec fn supported_hash_function(code: u64) -> bool {
    code == BLAKE2B_256
}

pub open spec fn supported_content_type(code: u64) -> bool {
    code == RAW || code == DAG_CBOR
}

/// The identifier of `data` under the given codes, or the error for codes
/// outside the registry (the hash function is checked first).
pub open spec fn identifier_for(data: Seq<u8>, content_type: u64, hash_function: u64) -> Result<
    CidValue,
    CarError,
> {
    if !supported_hash_function(hash_function) {
        Err(CarError::UnsupportedHashFunction)
    } else if !supported_content_type(content_type) {
        Err(CarError::UnsupportedContentType)
    } else {
        Ok(
            CidValue {
                codec: content_type,
                hash_code: hash_function,
                digest: blake2b_256_of(data),
            },
        )
    }
}

/// Binary form: version byte, content-type code, then the multihash
/// (hash code, digest length, digest).
pub open spec fn cid_bytes(c: CidValue) -> Seq<u8> {
    seq![CID_VERSION] + varint(c.codec as nat) + varint(c.hash_code as nat) + varint(
        c.digest.len(),
    ) + c.digest
}

/// Reads an identifier from the front of `s`: its value and how many bytes it took.
pub open spec fn parse_cid(s: Seq<u8>) -> Option<(CidValue, nat)> {
    if s.len() == 0 || s[0] != CID_VERSION {
        None
    } else {
        match parse_varint(s.skip(1)) {
            None => None,
            Some((codec, k1)) => {
                let p1: int = 1 + k1 as int;
                match parse_varint(s.skip(p1)) {
                    None => None,
                    Some((hash_code, k2)) => {
                        let p2: int = p1 + k2 as int;
                        match parse_varint(s.skip(p2)) {
                            None => None,
                            Some((len, k3)) => {
                                let p3: int = p2 + k3 as int;
                                if codec <= u64::MAX && hash_code <= u64::MAX && p3 + len
                                    <= s.len() {
                                    Some(
                                        (
                                            CidValue {
                                                codec: codec as u64,
                                                hash_code: hash_code as u64,
                                                digest: s.subrange(p3, p3 + len as int),
                                            },
                                            (p3 + len) as nat,
                                        ),
                                    )
                                } else {
                                    None
                                }
                            },
                        }
                    },
                }
            },
        }
    }
}

/// An identifier's binary form is read back from the front of any byte
/// string it starts.
pub proof fn lemma_cid_round_trip(c: CidValue, rest: Seq<u8>)
    ensures
        parse_cid(cid_bytes(c) + rest) == Some((c, cid_bytes(c).len())),
{
    let a = varint(c.codec as nat);
    let b = varint(c.hash_code as nat);
    let d = varint(c.digest.len());
    let s = cid_bytes(c) + rest;
    lemma_varint_round_trip(c.codec as nat, b + d + c.digest + rest);
    lemma_varint_round_trip(c.hash_code as nat, d + c.digest + rest);
    lemma_varint_round_trip(c.digest.len(), c.digest + rest);
    assert(s.skip(1) =~= a + (b + d + c.digest + rest));
    assert(s.skip(1 + a.len() as int) =~= b + (d + c.digest + rest));
    assert(s.skip(1 + a.len() + b.len() as int) =~= d + (c.digest + rest));
    let p3: int = 1 + a.len() + b.len() + d.len() as int;
    assert(s.subrange(p3, p3 + c.digest.len() as int) =~= c.digest);
}

impl ContentIdentifier {
    /// Appends the binary form of this identifier to `out`.
    pub fn write_bytes(&self, out: &mut Vec<u8>)
        ensures
            final(out)@ == old(out)@ + cid_bytes(self@),
    {
        let ghost before = out@;
        out.push(CID_VERSION);
        push_varint(out, self.codec);
        push_varint(out, self.hash_code);
        push_varint(out, self.digest.len() as u64);
        append_bytes(out, self.digest.as_slice());
        assert(out@ =~= before + cid_bytes(self@));
    }

    /// The binary form of this identifier.
    pub fn to_bytes(&self) -> (r: Vec<u8>)
        ensures
            r@ == cid_bytes(self@),
    {
        let mut r: Vec<u8> = Vec::new();
        self.write_bytes(&mut r);
        assert(r@ =~= cid_bytes(self@));
        r
    }

    /// An identifier equal to this one.
    pub fn duplicate(&self) -> (r: ContentIdentifier)
        ensures
            r@ == self@,
    {
        ContentIdentifier {
            codec: self.codec,
            hash_code: self.hash_code,
            digest: copy_bytes(self.digest.as_slice()),
        }
    }
}

/// Builds the identifier of `data`: its BLAKE2b-256 digest wrapped as a
/// multihash, tagged with the content type. Codes outside the registry are
/// refused.
pub fn build_identifier(data: &[u8], content_type_code: u64, hash_function_code: u64) -> (r:
    Result<ContentIdentifier, CarError>)
    ensures
        match r {
            Ok(c) => identifier_for(data@, content_type_code, hash_function_code) == Ok::<
                CidValue,
                CarError,
            >(c@),
            Err(e) => identifier_for(data@, content_type_code, hash_function_code) == Err::<
                CidValue,
                CarError,
            >(e),
        },
        r is Ok ==> r->Ok_0.digest@.len() == 32,
{
    if hash_function_code != BLAKE2B_256 {
        return Err(CarError::UnsupportedHashFunction);
    }
    if content_type_code != RAW && content_type_code != DAG_CBOR {
        return Err(CarError::UnsupportedContentType);
    }
    let digest = blake2b_256(data);
    Ok(ContentIdentifier { codec: content_type_code, hash_code: hash_function_code, digest })
}

} // verus!
