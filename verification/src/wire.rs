//! Big-endian integers on the wire.

use byteorder::{ByteOrder, NetworkEndian};
use vstd::arithmetic::power::pow;
use vstd::prelude::*;

verus! {

/// The number that `s` spells with its most significant byte first.
pub open spec fn be_nat(s: Seq<u8>) -> nat
    decreases s.len(),
{
    if s.len() == 0 {
        0
    } else {
        be_nat(s.drop_last()) * 256 + s.last() as nat
    }
}

/// The lowest `len` bytes of `n`, most significant first.
pub open spec fn be_bytes(n: nat, len: nat) -> Seq<u8>
    decreases len,
{
    if len == 0 {
        Seq::empty()
    } else {
        be_bytes(n / 256, (len - 1) as nat).push((n % 256) as u8)
    }
}

pub broadcast proof fn lemma_be_bytes_len(n: nat, len: nat)
    ensures
        #[trigger] be_bytes(n, len).len() == len,
    decreases len,
{
    if len > 0 {
        lemma_be_bytes_len(n / 256, (len - 1) as nat);
    }
}

/// Reading back the bytes of a number that fits in them gives the number.
pub proof fn lemma_be_round_trip(n: nat, len: nat)
    requires
        n < pow(256, len),
    ensures
        be_nat(be_bytes(n, len)) == n,
    decreases len,
{
    lemma_be_bytes_len(n, len);
    if len > 0 {
        let s = be_bytes(n, len);
        reveal(pow);
        assert(pow(256, len) == 256 * pow(256, (len - 1) as nat));
        assert(n / 256 < pow(256, (len - 1) as nat)) by (nonlinear_arith)
            requires
                n < 256 * pow(256, (len - 1) as nat),
        ;
        lemma_be_round_trip(n / 256, (len - 1) as nat);
        assert(s.drop_last() =~= be_bytes(n / 256, (len - 1) as nat));
    } else {
        reveal(pow);
    }
}

pub proof fn lemma_be_round_trip_fixed(a: u16, b: u32, c: u64)
    ensures
        be_nat(be_bytes(a as nat, 2)) == a,
        be_nat(be_bytes(b as nat, 4)) == b,
        be_nat(be_bytes(c as nat, 8)) == c,
{
    assert(pow(256, 2) == 0x1_0000 && pow(256, 4) == 0x1_0000_0000 && pow(256, 8)
        == 0x1_0000_0000_0000_0000) by {
        reveal_with_fuel(pow, 9);
    }
    lemma_be_round_trip(a as nat, 2);
    lemma_be_round_trip(b as nat, 4);
    lemma_be_round_trip(c as nat, 8);
}

/// `NetworkEndian::read_u16`: the first two bytes of `buf` as a big-endian number.
#[verifier::external_body]
pub(crate) fn read_u16(buf: &[u8]) -> (r: u16)
    requires
        buf@.len() >= 2,
    ensures
        r == be_nat(buf@.take(2)),
{
    NetworkEndian::read_u16(buf)
}

/// `NetworkEndian::read_u32`: the first four bytes of `buf` as a big-endian number.
#[verifier::external_body]
pub(crate) fn read_u32(buf: &[u8]) -> (r: u32)
    requires
        buf@.len() >= 4,
    ensures
        r == be_nat(buf@.take(4)),
{
    NetworkEndian::read_u32(buf)
}

/// `NetworkEndian::read_u64`: the first eight bytes of `buf` as a big-endian number.
#[verifier::external_body]
pub(crate) fn read_u64(buf: &[u8]) -> (r: u64)
    requires
        buf@.len() >= 8,
    ensures
        r == be_nat(buf@.take(8)),
{
    NetworkEndian::read_u64(buf)
}

/// `NetworkEndian::write_u16`: overwrites the first two bytes of `buf` with `n` in
/// big-endian order and leaves the rest alone.
#[verifier::external_body]
pub(crate) fn write_u16(buf: &mut [u8], n: u16)
    requires
        old(buf)@.len() >= 2,
    ensures
        final(buf)@ == be_bytes(n as nat, 2) + old(buf)@.skip(2),
{
    NetworkEndian::write_u16(buf, n)
}

/// `NetworkEndian::write_u32`: overwrites the first four bytes of `buf` with `n` in
/// big-endian order and leaves the rest alone.
#[verifier::external_body]
pub(crate) fn write_u32(buf: &mut [u8], n: u32)
    requires
        old(buf)@.len() >= 4,
    ensures
        final(buf)@ == be_bytes(n as nat, 4) + old(buf)@.skip(4),
{
    NetworkEndian::write_u32(buf, n)
}

/// `NetworkEndian::write_u64`: overwrites the first eight bytes of `buf` with `n` in
/// big-endian order and leaves the rest alone.
#[verifier::external_body]
pub(crate) fn write_u64(buf: &mut [u8], n: u64)
    requires
        old(buf)@.len() >= 8,
    ensures
        final(buf)@ == be_bytes(n as nat, 8) + old(buf)@.skip(8),
{
    NetworkEndian::write_u64(buf, n)
}

/// Appends `n` to `out` in big-endian order.
pub(crate) fn push_u16(out: &mut Vec<u8>, n: u16)
    ensures
        final(out)@ == old(out)@ + be_bytes(n as nat, 2),
{
    let mut tmp: [u8; 2] = [0, 0];
    write_u16(&mut tmp, n);
    broadcast use lemma_be_bytes_len;
    assert(tmp@ =~= be_bytes(n as nat, 2));
    out.push(tmp[0]);
    out.push(tmp[1]);
    assert(out@ =~= old(out)@ + be_bytes(n as nat, 2));
}

} // verus!
