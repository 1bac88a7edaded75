//! The archive header: a DAG-CBOR map `{roots: [..], version: n}` whose roots
//! are identifiers under tag 42, prefixed by its length as a varint.
use vstd::prelude::*;
use crate::bytes::append_bytes;
use crate::cid::{cid_bytes, lemma_cid_round_trip, parse_cid, CidValue, ContentIdentifier};
use crate::varint::{lemma_varint_round_trip, parse_varint, push_varint, varint};

verus! {

/// The last `k` bytes of `n`, most significant first.
pub open spec fn be(n: nat, k: nat) -> Seq<u8>
    decreases k,
{
    if k == 0 {
        seq![]
    } else {
        be(n / 256, (k - 1) as nat) + seq![(n % 256) as u8]
    }
}

/// The number that a big-endian byte string spells.
pub open spec fn be_value(s: Seq<u8>) -> nat
    decreases s.len(),
{
    if s.len() == 0 {
        0
    } else {
        be_value(s.drop_last()) * 256 + s.last() as nat
    }
}

/// A CBOR head: major type in the top three bits, then the argument `n`
/// inline or in the fewest of 1, 2, 4 or 8 following bytes.
pub open spec fn cbor_head(major: u8, n: nat) -> Seq<u8> {
    if n < 24 {
        seq![(major * 32 + n) as u8]
    } else if n < 0x100 {
        seq![(major * 32 + 24) as u8] + be(n, 1)
    } else if n < 0x1_0000 {
        seq![(major * 32 + 25) as u8] + be(n, 2)
    } else if n < 0x1_0000_0000 {
        seq![(major * 32 + 26) as u8] + be(n, 4)
    } else {
        seq![(major * 32 + 27) as u8] + be(n, 8)
    }
}

/// The map head of two entries, then the text key "roots".
pub open spec fn roots_key() -> Seq<u8> {
    seq![0xa2u8, 0x65u8, 0x72u8, 0x6fu8, 0x6fu8, 0x74u8, 0x73u8]
}

/// The text key "version".
pub open spec fn version_key() -> Seq<u8> {
    seq![0x67u8, 0x76u8, 0x65u8, 0x72u8, 0x73u8, 0x69u8, 0x6fu8, 0x6eu8]
}

/// One root: tag 42 over a byte string of a zero byte and the identifier.
pub open spec fn root_item(c: CidValue) -> Seq<u8> {
    seq![0xd8u8, 0x2au8] + cbor_head(2, cid_bytes(c).len() + 1) + seq![0u8] + cid_bytes(c)
}

/// The items of a root list, one after another.
pub open spec fn roots_bytes(roots: Seq<CidValue>) -> Seq<u8>
    decreases roots.len(),
{
    if roots.len() == 0 {
        seq![]
    } else {
        root_item(roots[0]) + roots_bytes(roots.drop_first())
    }
}

/// The header record without its length prefix. The keys stand in DAG-CBOR's
/// canonical order: the shorter key first.
pub open spec fn header_record(version: u64, roots: Seq<CidValue>) -> Seq<u8> {
    roots_key() + cbor_head(4, roots.len()) + roots_bytes(roots) + version_key() + cbor_head(
        0,
        version as nat,
    )
}

/// The header as it opens an archive.
pub open spec fn header_bytes(version: u64, roots: Seq<CidValue>) -> Seq<u8> {
    varint(header_record(version, roots).len()) + header_record(version, roots)
}

pub open spec fn views(cids: Seq<ContentIdentifier>) -> Seq<CidValue> {
    cids.map_values(|c: ContentIdentifier| c@)
}

proof fn lemma_roots_bytes_push(roots: Seq<CidValue>, c: CidValue)
    ensures
        roots_bytes(roots.push(c)) == roots_bytes(roots) + root_item(c),
    decreases roots.len(),
{
    if roots.len() == 0 {
        assert(roots.push(c).drop_first() =~= roots);
        assert(roots_bytes(roots.push(c)) =~= roots_bytes(roots) + root_item(c));
    } else {
        lemma_roots_bytes_push(roots.drop_first(), c);
        assert(roots.push(c).drop_first() =~= roots.drop_first().push(c));
        assert(roots_bytes(roots.push(c)) =~= roots_bytes(roots) + root_item(c));
    }
}

/// Appends the last `k` bytes of `n`, most significant first.
fn push_be(out: &mut Vec<u8>, n: u64, k: usize)
    ensures
        final(out)@ == old(out)@ + be(n as nat, k as nat),
    decreases k,
{
    let ghost before = out@;
    if k > 0 {
        push_be(out, n / 256, k - 1);
        out.push((n % 256) as u8);
        assert(out@ =~= before + be(n as nat, k as nat));
    } else {
        assert(out@ =~= before + be(n as nat, k as nat));
    }
}

/// Appends the CBOR head of major type `major` with argument `n`.
fn push_cbor_head(out: &mut Vec<u8>, major: u8, n: u64)
    requires
        major < 8,
    ensures
        final(out)@ == old(out)@ + cbor_head(major, n as nat),
{
    let ghost before = out@;
    if n < 24 {
        out.push(major * 32 + n as u8);
    } else if n < 0x100 {
        out.push(major * 32 + 24);
        push_be(out, n, 1);
    } else if n < 0x1_0000 {
        out.push(major * 32 + 25);
        push_be(out, n, 2);
    } else if n < 0x1_0000_0000 {
        out.push(major * 32 + 26);
        push_be(out, n, 4);
    } else {
        out.push(major * 32 + 27);
        push_be(out, n, 8);
    }
    assert(out@ =~= before + cbor_head(major, n as nat));
}

fn push_root_item(out: &mut Vec<u8>, c: &ContentIdentifier)
    ensures
        final(out)@ == old(out)@ + root_item(c@),
{
    let ghost before = out@;
    let mut body: Vec<u8> = Vec::new();
    body.push(0u8);
    c.write_bytes(&mut body);
    assert(body@ =~= seq![0u8] + cid_bytes(c@));
    out.push(0xd8u8);
    out.push(0x2au8);
    push_cbor_head(out, 2, body.len() as u64);
    append_bytes(out, body.as_slice());
    assert(out@ =~= before + root_item(c@));
}

/// The archive preamble: format version and root identifiers, in order.
pub struct ContainerHeader {
    pub version: u64,
    pub roots: Vec<ContentIdentifier>,
}

impl ContainerHeader {
    /// The header as it opens an archive.
    pub fn serialize(&self) -> (r: Vec<u8>)
        ensures
            r@ == header_bytes(self.version, views(self.roots@)),
    {
        serialize_header(self.version, self.roots.as_slice())
    }
}

/// Serializes the header of an archive: the `{roots, version}` record with
/// its byte length in front.
pub fn serialize_header(version: u64, roots: &[ContentIdentifier]) -> (r: Vec<u8>)
    ensures
        r@ == header_bytes(version, views(roots@)),
{
    let mut rec: Vec<u8> = Vec::new();
    rec.push(0xa2u8);
    rec.push(0x65u8);
    rec.push(0x72u8);
    rec.push(0x6fu8);
    rec.push(0x6fu8);
    rec.push(0x74u8);
    rec.push(0x73u8);
    push_cbor_head(&mut rec, 4, roots.len() as u64);
    let ghost start = rec@;
    assert(start =~= roots_key() + cbor_head(4, roots@.len()));
    let mut i: usize = 0;
    while i < roots.len()
        invariant
            i <= roots@.len(),
            rec@ == start + roots_bytes(views(roots@.subrange(0, i as int))),
        decreases roots@.len() - i,
    {
        proof {
            lemma_roots_bytes_push(views(roots@.subrange(0, i as int)), roots@[i as int]@);
            assert(views(roots@.subrange(0, i + 1 as int)) =~= views(
                roots@.subrange(0, i as int),
            ).push(roots@[i as int]@));
        }
        push_root_item(&mut rec, &roots[i]);
        i = i + 1;
        assert(rec@ =~= start + roots_bytes(views(roots@.subrange(0, i as int))));
    }
    assert(roots@.subrange(0, roots@.len() as int) =~= roots@);
    rec.push(0x67u8);
    rec.push(0x76u8);
    rec.push(0x65u8);
    rec.push(0x72u8);
    rec.push(0x73u8);
    rec.push(0x69u8);
    rec.push(0x6fu8);
    rec.push(0x6eu8);
    push_cbor_head(&mut rec, 0, version);
    assert(rec@ =~= header_record(version, views(roots@)));
    let mut r: Vec<u8> = Vec::new();
    push_varint(&mut r, rec.len() as u64);
    append_bytes(&mut r, rec.as_slice());
    r
}

} // verus!

verus! {

pub open spec fn pow256(k: nat) -> nat
    decreases k,
{
    if k == 0 {
        1
    } else {
        256 * pow256((k - 1) as nat)
    }
}

/// Reads a CBOR head from the front of `s`: major type, argument, and how
/// many bytes it took.
pub open spec fn parse_cbor_head(s: Seq<u8>) -> Option<(nat, nat, nat)> {
    if s.len() == 0 {
        None
    } else {
        let major = (s[0] / 32) as nat;
        let info = (s[0] % 32) as nat;
        if info < 24 {
            Some((major, info, 1nat))
        } else if info == 24 && s.len() >= 2 {
            Some((major, be_value(s.subrange(1, 2)), 2nat))
        } else if info == 25 && s.len() >= 3 {
            Some((major, be_value(s.subrange(1, 3)), 3nat))
        } else if info == 26 && s.len() >= 5 {
            Some((major, be_value(s.subrange(1, 5)), 5nat))
        } else if info == 27 && s.len() >= 9 {
            Some((major, be_value(s.subrange(1, 9)), 9nat))
        } else {
            None
        }
    }
}

/// Reads one root item from the front of `s`.
pub open spec fn parse_root_item(s: Seq<u8>) -> Option<(CidValue, nat)> {
    if s.len() >= 2 && s[0] == 0xd8u8 && s[1] == 0x2au8 {
        match parse_cbor_head(s.skip(2)) {
            None => None,
            Some((major, len, k)) => {
                let p: int = 2 + k as int;
                if major == 2 && len >= 1 && p + len <= s.len() && s[p] == 0u8 {
                    match parse_cid(s.subrange(p + 1, p + len)) {
                        Some((c, m)) => if m + 1 == len {
                            Some((c, (p + len) as nat))
                        } else {
                            None
                        },
                        None => None,
                    }
                } else {
                    None
                }
            },
        }
    } else {
        None
    }
}

/// Reads `n` root items from the front of `s`.
pub open spec fn parse_roots(s: Seq<u8>, n: nat) -> Option<(Seq<CidValue>, nat)>
    decreases n,
{
    if n == 0 {
        Some((seq![], 0nat))
    } else {
        match parse_root_item(s) {
            None => None,
            Some((c, m)) => match parse_roots(s.skip(m as int), (n - 1) as nat) {
                None => None,
                Some((cs, m2)) => Some((seq![c] + cs, m + m2)),
            },
        }
    }
}

/// The key "version" and the version itself, taking the whole of `t`.
pub open spec fn parse_version_entry(t: Seq<u8>) -> Option<u64> {
    if t.len() >= 8 && t.subrange(0, 8) == version_key() {
        match parse_cbor_head(t.skip(8)) {
            None => None,
            Some((major, v, k)) => if major == 0 && v <= u64::MAX && 8 + k == t.len() {
                Some(v as u64)
            } else {
                None
            },
        }
    } else {
        None
    }
}

/// The root array, then the version entry, taking the whole of `t`.
pub open spec fn parse_record_body(t: Seq<u8>) -> Option<(u64, Seq<CidValue>)> {
    match parse_cbor_head(t) {
        None => None,
        Some((major, n, k)) => if major != 4 {
            None
        } else {
            match parse_roots(t.skip(k as int), n) {
                None => None,
                Some((roots, m)) => match parse_version_entry(t.skip(k + m as int)) {
                    None => None,
                    Some(v) => Some((v, roots)),
                },
            }
        },
    }
}

/// Reads a header record that takes the whole of `r`.
pub open spec fn parse_header_record(r: Seq<u8>) -> Option<(u64, Seq<CidValue>)> {
    if r.len() >= 7 && r.subrange(0, 7) == roots_key() {
        parse_record_body(r.skip(7))
    } else {
        None
    }
}

/// Reads a length-prefixed header from the front of `s`: version, roots, and
/// how many bytes it took.
pub open spec fn parse_header(s: Seq<u8>) -> Option<((u64, Seq<CidValue>), nat)> {
    match parse_varint(s) {
        None => None,
        Some((len, k)) => if k + len <= s.len() {
            match parse_header_record(s.subrange(k as int, k + len as int)) {
                None => None,
                Some(h) => Some((h, (k + len) as nat)),
            }
        } else {
            None
        },
    }
}

/// The number of roots, and every root's binary form with the zero byte
/// before it, fit a CBOR argument.
pub open spec fn roots_encodable(roots: Seq<CidValue>) -> bool {
    &&& roots.len() <= u64::MAX
    &&& forall|i: int| 0 <= i < roots.len() ==> cid_bytes(#[trigger] roots[i]).len() + 1 <= u64::MAX
}

proof fn lemma_be_round_trip(n: nat, k: nat)
    requires
        n < pow256(k),
    ensures
        be(n, k).len() == k,
        be_value(be(n, k)) == n,
    decreases k,
{
    if k > 0 {
        let p = pow256((k - 1) as nat);
        assert(n / 256 < p) by (nonlinear_arith)
            requires
                n < 256 * p,
        ;
        lemma_be_round_trip(n / 256, (k - 1) as nat);
        assert(be(n, k).drop_last() =~= be(n / 256, (k - 1) as nat));
    }
}

proof fn lemma_cbor_head_round_trip(major: u8, n: nat, rest: Seq<u8>)
    requires
        major < 8,
        n <= u64::MAX,
    ensures
        parse_cbor_head(cbor_head(major, n) + rest) == Some(
            (major as nat, n, cbor_head(major, n).len()),
        ),
{
    reveal_with_fuel(pow256, 9);
    let s = cbor_head(major, n) + rest;
    let h = cbor_head(major, n);
    if n < 24 {
        assert(s[0] == (major * 32 + n) as u8);
    } else if n < 0x100 {
        lemma_be_round_trip(n, 1);
        assert(s.subrange(1, 2) =~= be(n, 1));
    } else if n < 0x1_0000 {
        lemma_be_round_trip(n, 2);
        assert(s.subrange(1, 3) =~= be(n, 2));
    } else if n < 0x1_0000_0000 {
        lemma_be_round_trip(n, 4);
        assert(s.subrange(1, 5) =~= be(n, 4));
    } else {
        lemma_be_round_trip(n, 8);
        assert(s.subrange(1, 9) =~= be(n, 8));
    }
}

proof fn lemma_root_item_round_trip(c: CidValue, rest: Seq<u8>)
    requires
        cid_bytes(c).len() + 1 <= u64::MAX,
    ensures
        parse_root_item(root_item(c) + rest) == Some((c, root_item(c).len())),
{
    let b = cid_bytes(c);
    let head = cbor_head(2, b.len() + 1);
    let s = root_item(c) + rest;
    lemma_cbor_head_round_trip(2, b.len() + 1, seq![0u8] + b + rest);
    assert(s.skip(2) =~= head + (seq![0u8] + b + rest));
    let p: int = 2 + head.len() as int;
    assert(s[p] == 0u8);
    lemma_cid_round_trip(c, seq![]);
    assert(s.subrange(p + 1, p + b.len() + 1) =~= b + seq![]);
}

proof fn lemma_roots_round_trip(roots: Seq<CidValue>, rest: Seq<u8>)
    requires
        roots_encodable(roots),
    ensures
        parse_roots(roots_bytes(roots) + rest, roots.len()) == Some(
            (roots, roots_bytes(roots).len()),
        ),
    decreases roots.len(),
{
    if roots.len() > 0 {
        let tail = roots.drop_first();
        assert(roots_encodable(tail)) by {
            assert forall|i: int| 0 <= i < tail.len() implies cid_bytes(#[trigger] tail[i]).len()
                + 1 <= u64::MAX by {
                assert(tail[i] == roots[i + 1]);
            }
        }
        assert(cid_bytes(roots[0]).len() + 1 <= u64::MAX);
        lemma_root_item_round_trip(roots[0], roots_bytes(tail) + rest);
        lemma_roots_round_trip(tail, rest);
        let s = roots_bytes(roots) + rest;
        assert(s =~= root_item(roots[0]) + (roots_bytes(tail) + rest));
        assert(s.skip(root_item(roots[0]).len() as int) =~= roots_bytes(tail) + rest);
        assert(seq![roots[0]] + tail =~= roots);
    }
}

proof fn lemma_version_entry_round_trip(version: u64)
    ensures
        parse_version_entry(version_key() + cbor_head(0, version as nat)) == Some(version),
{
    let vh = cbor_head(0, version as nat);
    let t = version_key() + vh;
    assert(t.subrange(0, 8) =~= version_key());
    lemma_cbor_head_round_trip(0, version as nat, seq![]);
    assert(t.skip(8) =~= vh + seq![]);
}

proof fn lemma_record_body_round_trip(version: u64, roots: Seq<CidValue>)
    requires
        roots_encodable(roots),
    ensures
        parse_record_body(
            cbor_head(4, roots.len()) + roots_bytes(roots) + version_key() + cbor_head(
                0,
                version as nat,
            ),
        ) == Some((version, roots)),
{
    let nh = cbor_head(4, roots.len());
    let rb = roots_bytes(roots);
    let tail = version_key() + cbor_head(0, version as nat);
    let t = nh + rb + version_key() + cbor_head(0, version as nat);
    assert(t =~= nh + (rb + tail));
    lemma_cbor_head_round_trip(4, roots.len(), rb + tail);
    assert(t.skip(nh.len() as int) =~= rb + tail);
    lemma_roots_round_trip(roots, tail);
    assert(t.skip(nh.len() + rb.len() as int) =~= tail);
    lemma_version_entry_round_trip(version);
}

proof fn lemma_record_round_trip(version: u64, roots: Seq<CidValue>)
    requires
        roots_encodable(roots),
    ensures
        parse_header_record(header_record(version, roots)) == Some((version, roots)),
{
    let r = header_record(version, roots);
    let body = cbor_head(4, roots.len()) + roots_bytes(roots) + version_key() + cbor_head(
        0,
        version as nat,
    );
    assert(r.subrange(0, 7) =~= roots_key());
    assert(r.skip(7) =~= body);
    lemma_record_body_round_trip(version, roots);
}

/// A serialized header is read back, version and roots, from the front of any
/// byte string it starts.
pub proof fn lemma_header_round_trip(version: u64, roots: Seq<CidValue>, rest: Seq<u8>)
    requires
        roots_encodable(roots),
    ensures
        parse_header(header_bytes(version, roots) + rest) == Some(
            ((version, roots), header_bytes(version, roots).len()),
        ),
{
    let r = header_record(version, roots);
    let s = header_bytes(version, roots) + rest;
    lemma_varint_round_trip(r.len(), r + rest);
    assert(s =~= varint(r.len()) + (r + rest));
    let k = varint(r.len()).len();
    assert(s.subrange(k as int, k + r.len() as int) =~= r);
    lemma_record_round_trip(version, roots);
}

} // verus!
