//! Big-endian encoding of the 16- and 32-bit integers stored in a record.

use byteorder::{BigEndian, ByteOrder};
use vstd::prelude::*;

verus! {

/// The value of two bytes read most significant first.
pub open spec fn be16(b: Seq<u8>) -> int {
    b[0] as int * 256 + b[1] as int
}

/// The value of four bytes read most significant first.
pub open spec fn be32(b: Seq<u8>) -> int {
    ((b[0] as int * 256 + b[1] as int) * 256 + b[2] as int) * 256 + b[3] as int
}

/// The two bytes of `n`, most significant first.
pub open spec fn be16_bytes(n: int) -> Seq<u8> {
    seq![(n / 256) as u8, (n % 256) as u8]
}

/// The four bytes of `n`, most significant first.
pub open spec fn be32_bytes(n: int) -> Seq<u8> {
    seq![
        (n / 0x100_0000) as u8,
        ((n / 0x1_0000) % 256) as u8,
        ((n / 256) % 256) as u8,
        (n % 256) as u8,
    ]
}

/// Reading back the bytes of a 16-bit value gives the value.
pub proof fn lemma_be16_round_trip(n: int)
    requires
        0 <= n < 0x1_0000,
    ensures
        be16(be16_bytes(n)) == n,
        be16_bytes(n).len() == 2,
{
    assert(0 <= n / 256 < 256 && 0 <= n % 256 < 256 && n == (n / 256) * 256 + n % 256)
        by (nonlinear_arith)
        requires
            0 <= n < 0x1_0000,
    ;
}

/// Reading back the bytes of a 32-bit value gives the value.
pub proof fn lemma_be32_round_trip(n: int)
    requires
        0 <= n < 0x1_0000_0000,
    ensures
        be32(be32_bytes(n)) == n,
        be32_bytes(n).len() == 4,
{
    let a = n / 0x100_0000;
    let b = (n / 0x1_0000) % 256;
    let c = (n / 256) % 256;
    let d = n % 256;
    assert(0 <= a < 256 && 0 <= b < 256 && 0 <= c < 256 && 0 <= d < 256
        && ((a * 256 + b) * 256 + c) * 256 + d == n) by (nonlinear_arith)
        requires
            0 <= n < 0x1_0000_0000,
            a == n / 0x100_0000,
            b == (n / 0x1_0000) % 256,
            c == (n / 256) % 256,
            d == n % 256,
    ;
}

/// Relies on byteorder's `BigEndian::read_u16`: the first two bytes of the
/// slice, most significant first (it panics on a shorter slice).
#[verifier::external_body]
fn read_be_u16(buf: &[u8]) -> (r: u16)
    requires
        buf@.len() >= 2,
    ensures
        r as int == be16(buf@),
{
    BigEndian::read_u16(buf)
}

/// Relies on byteorder's `BigEndian::read_u32`: the first four bytes of the
/// slice, most significant first (it panics on a shorter slice).
#[verifier::external_body]
fn read_be_u32(buf: &[u8]) -> (r: u32)
    requires
        buf@.len() >= 4,
    ensures
        r as int == be32(buf@),
{
    BigEndian::read_u32(buf)
}

/// Relies on byteorder's `BigEndian::write_u16`: it stores the two bytes of
/// `n`, most significant first, at the front of a two-byte buffer.
#[verifier::external_body]
fn write_be_u16(n: u16) -> (r: Vec<u8>)
    ensures
        r@ == be16_bytes(n as int),
{
    let mut buf = [0u8; 2];
    BigEndian::write_u16(&mut buf, n);
    buf.to_vec()
}

/// Relies on byteorder's `BigEndian::write_u32`: it stores the four bytes of
/// `n`, most significant first, at the front of a four-byte buffer.
#[verifier::external_body]
fn write_be_u32(n: u32) -> (r: Vec<u8>)
    ensures
        r@ == be32_bytes(n as int),
{
    let mut buf = [0u8; 4];
    BigEndian::write_u32(&mut buf, n);
    buf.to_vec()
}

/// Decodes two big-endian bytes.
pub fn uint16_from_bytes(bytes: [u8; 2]) -> (r: u16)
    ensures
        r as int == be16(bytes@),
{
    read_be_u16(bytes.as_slice())
}

/// Decodes four big-endian bytes.
pub fn uint32_from_bytes(bytes: [u8; 4]) -> (r: u32)
    ensures
        r as int == be32(bytes@),
{
    read_be_u32(bytes.as_slice())
}

/// Encodes a 16-bit value as two big-endian bytes.
pub fn uint16_to_bytes(value: u16) -> (r: Vec<u8>)
    ensures
        r@ == be16_bytes(value as int),
        be16(r@) == value as int,
{
    proof {
        lemma_be16_round_trip(value as int);
    }
    write_be_u16(value)
}

/// Encodes a 32-bit value as four big-endian bytes.
pub fn uint32_to_bytes(value: u32) -> (r: Vec<u8>)
    ensures
        r@ == be32_bytes(value as int),
        be32(r@) == value as int,
{
    proof {
        lemma_be32_round_trip(value as int);
    }
    write_be_u32(value)
}

} // verus!
