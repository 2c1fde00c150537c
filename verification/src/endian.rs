use vstd::prelude::*;

verus! {

/// The value of two bytes read as one big-endian integer.
pub open spec fn be16(b0: u8, b1: u8) -> int {
    b0 * 0x100 + b1
}

/// The value of four bytes read as one big-endian integer.
pub open spec fn be32(b0: u8, b1: u8, b2: u8, b3: u8) -> int {
    b0 * 0x1000000 + b1 * 0x10000 + b2 * 0x100 + b3
}

/// The two bytes of a 16-bit integer in big-endian order.
pub open spec fn be16_bytes(n: u16) -> Seq<u8> {
    seq![(n / 0x100) as u8, (n % 0x100) as u8]
}

/// The four bytes of a 32-bit integer in big-endian order.
pub open spec fn be32_bytes(n: u32) -> Seq<u8> {
    seq![
        (n / 0x1000000) as u8,
        ((n / 0x10000) % 0x100) as u8,
        ((n / 0x100) % 0x100) as u8,
        (n % 0x100) as u8,
    ]
}

/// Relies on byteorder's `BigEndian::read_u16`: the two bytes at offset `i`
/// read as one big-endian integer.
#[verifier::external_body]
pub(crate) fn read_u16_at(bytes: &Vec<u8>, i: usize) -> (r: u16)
    requires
        i + 2 <= bytes@.len(),
    ensures
        r as int == be16(bytes@[i as int], bytes@[i as int + 1]),
{
    <byteorder::BigEndian as byteorder::ByteOrder>::read_u16(&bytes[i..])
}

/// Relies on byteorder's `BigEndian::read_u32`: the four bytes at offset `i`
/// read as one big-endian integer.
#[verifier::external_body]
pub(crate) fn read_u32_at(bytes: &Vec<u8>, i: usize) -> (r: u32)
    requires
        i + 4 <= bytes@.len(),
    ensures
        r as int == be32(
            bytes@[i as int],
            bytes@[i as int + 1],
            bytes@[i as int + 2],
            bytes@[i as int + 3],
        ),
{
    <byteorder::BigEndian as byteorder::ByteOrder>::read_u32(&bytes[i..])
}

/// Relies on byteorder's `BigEndian::write_u16`: the buffer is filled with
/// the two big-endian bytes of `n`.
#[verifier::external_body]
pub(crate) fn u16_to_be(n: u16) -> (r: [u8; 2])
    ensures
        r@ == be16_bytes(n),
{
    let mut buf = [0u8; 2];
    <byteorder::BigEndian as byteorder::ByteOrder>::write_u16(&mut buf, n);
    buf
}

/// Relies on byteorder's `BigEndian::write_u32`: the buffer is filled with
/// the four big-endian bytes of `n`.
#[verifier::external_body]
pub(crate) fn u32_to_be(n: u32) -> (r: [u8; 4])
    ensures
        r@ == be32_bytes(n),
{
    let mut buf = [0u8; 4];
    <byteorder::BigEndian as byteorder::ByteOrder>::write_u32(&mut buf, n);
    buf
}

/// Reading back the two big-endian bytes of a 16-bit integer gives that
/// integer.
pub proof fn lemma_be16_roundtrip(n: u16)
    ensures
        be16(be16_bytes(n)[0], be16_bytes(n)[1]) == n,
{
    assert(be16((n / 0x100) as u8, (n % 0x100) as u8) == n) by (nonlinear_arith);
}

/// Reading back the four big-endian bytes of a 32-bit integer gives that
/// integer.
pub proof fn lemma_be32_roundtrip(n: u32)
    ensures
        be32(be32_bytes(n)[0], be32_bytes(n)[1], be32_bytes(n)[2], be32_bytes(n)[3]) == n,
{
    assert(be32(
        (n / 0x1000000) as u8,
        ((n / 0x10000) % 0x100) as u8,
        ((n / 0x100) % 0x100) as u8,
        (n % 0x100) as u8,
    ) == n) by (nonlinear_arith);
}

} // verus!
