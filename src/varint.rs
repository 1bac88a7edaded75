//! Unsigned LEB128 integers, the length prefix of every CAR record.
use vstd::prelude::*;

verus! {

/// Seven bits per byte, low group first; every byte but the last has its
/// high bit set.
pub open spec fn varint(n: nat) -> Seq<u8>
    decreases n,
{
    if n < 128 {
        seq![n as u8]
    } else {
        seq![((n % 128) + 128) as u8] + varint(n / 128)
    }
}

/// Reads one varint from the front of `s`: its value and how many bytes it took.
pub open spec fn parse_varint(s: Seq<u8>) -> Option<(nat, nat)>
    decreases s.len(),
{
    if s.len() == 0 {
        None
    } else if s[0] < 128 {
        Some((s[0] as nat, 1nat))
    } else {
        match parse_varint(s.drop_first()) {
            Some((v, k)) => Some(((s[0] - 128) as nat + 128 * v, k + 1)),
            None => None,
        }
    }
}

/// A varint is read back from the front of any byte string it starts.
pub proof fn lemma_varint_round_trip(n: nat, rest: Seq<u8>)
    ensures
        parse_varint(varint(n) + rest) == Some((n, varint(n).len())),
        varint(n).len() >= 1,
    decreases n,
{
    let s = varint(n) + rest;
    if n < 128 {
        assert(s[0] == n as u8);
    } else {
        lemma_varint_round_trip(n / 128, rest);
        assert(s.drop_first() =~= varint(n / 128) + rest);
        assert(s[0] == ((n % 128) + 128) as u8);
    }
}

/// Appends the varint of `n` to `out`.
pub fn push_varint(out: &mut Vec<u8>, n: u64)
    ensures
        final(out)@ == old(out)@ + varint(n as nat),
    decreases n,
{
    let ghost before = out@;
    if n < 128 {
        out.push(n as u8);
        assert(out@ =~= before + varint(n as nat));
    } else {
        out.push(((n % 128) + 128) as u8);
        push_varint(out, n / 128);
        assert(out@ =~= before + varint(n as nat));
    }
}

} // verus!
