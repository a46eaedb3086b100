//! Big-endian integers on the wire.
use vstd::prelude::*;
use byteorder::{BigEndian, ByteOrder};

verus! {

/// The two bytes of `n`, most significant first.
pub open spec fn be16(n: u16) -> Seq<u8> {
    seq![(n / 0x100) as u8, (n % 0x100) as u8]
}

/// The four bytes of `n`, most significant first.
pub open spec fn be32(n: u32) -> Seq<u8> {
    seq![
        (n / 0x100_0000) as u8,
        ((n / 0x1_0000) % 0x100) as u8,
        ((n / 0x100) % 0x100) as u8,
        (n % 0x100) as u8,
    ]
}

/// The eight bytes of `n`, most significant first.
pub open spec fn be64(n: u64) -> Seq<u8> {
    be32((n / 0x1_0000_0000) as u32) + be32((n % 0x1_0000_0000) as u32)
}

/// Two numbers with the same big-endian bytes are equal.
pub proof fn lemma_be16_injective(a: u16, b: u16)
    requires
        be16(a) == be16(b),
    ensures
        a == b,
{
    assert(be16(a)[0] == be16(b)[0] && be16(a)[1] == be16(b)[1]);
}

/// Two numbers with the same big-endian bytes are equal.
pub proof fn lemma_be32_injective(a: u32, b: u32)
    requires
        be32(a) == be32(b),
    ensures
        a == b,
{
    assert(be32(a)[0] == be32(b)[0] && be32(a)[1] == be32(b)[1]);
    assert(be32(a)[2] == be32(b)[2] && be32(a)[3] == be32(b)[3]);
}

/// Two numbers with the same big-endian bytes are equal.
pub proof fn lemma_be64_injective(a: u64, b: u64)
    requires
        be64(a) == be64(b),
    ensures
        a == b,
{
    let (ha, la) = ((a / 0x1_0000_0000) as u32, (a % 0x1_0000_0000) as u32);
    let (hb, lb) = ((b / 0x1_0000_0000) as u32, (b % 0x1_0000_0000) as u32);
    assert(be32(ha) =~= be64(a).subrange(0, 4));
    assert(be32(hb) =~= be64(b).subrange(0, 4));
    assert(be32(la) =~= be64(a).subrange(4, 8));
    assert(be32(lb) =~= be64(b).subrange(4, 8));
    lemma_be32_injective(ha, hb);
    lemma_be32_injective(la, lb);
}

/// The number whose big-endian bytes are `b[pos..pos + 2]`.
pub open spec fn be16_value(b: Seq<u8>, pos: int) -> int {
    b[pos] * 0x100 + b[pos + 1]
}

/// The number whose big-endian bytes are `b[pos..pos + 4]`.
pub open spec fn be32_value(b: Seq<u8>, pos: int) -> int {
    b[pos] * 0x100_0000 + b[pos + 1] * 0x1_0000 + b[pos + 2] * 0x100 + b[pos + 3]
}

pub proof fn lemma_be16_value(n: u16, b: Seq<u8>, pos: int)
    requires
        0 <= pos,
        pos + 2 <= b.len(),
        be16(n) == b.subrange(pos, pos + 2),
    ensures
        n == be16_value(b, pos),
{
    assert(be16(n)[0] == b[pos] && be16(n)[1] == b[pos + 1]);
    assert(n == (n / 0x100) * 0x100 + n % 0x100) by (nonlinear_arith);
}

pub proof fn lemma_be32_value(n: u32, b: Seq<u8>, pos: int)
    requires
        0 <= pos,
        pos + 4 <= b.len(),
        be32(n) == b.subrange(pos, pos + 4),
    ensures
        n == be32_value(b, pos),
{
    assert(be32(n)[0] == b[pos] && be32(n)[1] == b[pos + 1]);
    assert(be32(n)[2] == b[pos + 2] && be32(n)[3] == b[pos + 3]);
    assert(n == (n / 0x100_0000) * 0x100_0000 + ((n / 0x1_0000) % 0x100) * 0x1_0000 + ((n / 0x100)
        % 0x100) * 0x100 + n % 0x100) by (nonlinear_arith)
        requires
            n <= 0xffff_ffff,
    {}
}

/// Relies on byteorder's `BigEndian::read_u16`: the number whose big-endian
/// bytes are `buf[pos..pos + 2]`.
#[verifier::external_body]
pub(crate) fn read_be16(buf: &[u8], pos: usize) -> (r: u16)
    requires
        pos + 2 <= buf@.len(),
    ensures
        be16(r) == buf@.subrange(pos as int, pos + 2),
{
    BigEndian::read_u16(&buf[pos..])
}

/// Relies on byteorder's `BigEndian::read_u32`: the number whose big-endian
/// bytes are `buf[pos..pos + 4]`.
#[verifier::external_body]
pub(crate) fn read_be32(buf: &[u8], pos: usize) -> (r: u32)
    requires
        pos + 4 <= buf@.len(),
    ensures
        be32(r) == buf@.subrange(pos as int, pos + 4),
{
    BigEndian::read_u32(&buf[pos..])
}

/// Relies on byteorder's `BigEndian::read_u64`: the number whose big-endian
/// bytes are `buf[pos..pos + 8]`.
#[verifier::external_body]
pub(crate) fn read_be64(buf: &[u8], pos: usize) -> (r: u64)
    requires
        pos + 8 <= buf@.len(),
    ensures
        be64(r) == buf@.subrange(pos as int, pos + 8),
{
    BigEndian::read_u64(&buf[pos..])
}

/// Relies on byteorder's `BigEndian::write_u16`: appends the two big-endian
/// bytes of `n`.
#[verifier::external_body]
pub(crate) fn put_be16(out: &mut Vec<u8>, n: u16)
    ensures
        final(out)@ == old(out)@ + be16(n),
{
    let mut b = [0u8; 2];
    BigEndian::write_u16(&mut b, n);
    out.extend_from_slice(&b);
}

/// Relies on byteorder's `BigEndian::write_u32`: appends the four big-endian
/// bytes of `n`.
#[verifier::external_body]
pub(crate) fn put_be32(out: &mut Vec<u8>, n: u32)
    ensures
        final(out)@ == old(out)@ + be32(n),
{
    let mut b = [0u8; 4];
    BigEndian::write_u32(&mut b, n);
    out.extend_from_slice(&b);
}

/// Relies on byteorder's `BigEndian::write_u64`: appends the eight big-endian
/// bytes of `n`.
#[verifier::external_body]
pub(crate) fn put_be64(out: &mut Vec<u8>, n: u64)
    ensures
        final(out)@ == old(out)@ + be64(n),
{
    let mut b = [0u8; 8];
    BigEndian::write_u64(&mut b, n);
    out.extend_from_slice(&b);
}

} // verus!
