//! The size header: a pointer-width unsigned integer stored at the very
//! start of a memory region, encoded as eight little-endian bytes. It
//! records the payload size and is the only bookkeeping `free` and
//! `realloc` have.

use vstd::prelude::*;

verus! {

/// How many bytes the size header occupies.
pub const HEADER_SIZE: usize = 8;

/// The eight little-endian bytes of `v`.
pub open spec fn spec_header_bytes(v: u64) -> Seq<u8> {
    Seq::new(8, |i: int| ((v >> ((i * 8) as u64)) & 0xff) as u8)
}

/// The value recorded by the first eight bytes of `s`, read
/// little-endian.
pub open spec fn spec_header_value(s: Seq<u8>) -> u64
    recommends
        s.len() >= 8,
{
    (s[0] as u64) | ((s[1] as u64) << 8u64) | ((s[2] as u64) << 16u64) | ((s[3] as u64) << 24u64)
        | ((s[4] as u64) << 32u64) | ((s[5] as u64) << 40u64) | ((s[6] as u64) << 48u64) | ((
    s[7] as u64) << 56u64)
}

/// Encode `v` as its eight little-endian header bytes.
pub fn header_bytes(v: u64) -> (r: Vec<u8>)
    ensures
        r@ == spec_header_bytes(v),
{
    let mut out: Vec<u8> = Vec::new();
    assert((v >> 0u64) & 0xff < 256 && (v >> 8u64) & 0xff < 256 && (v >> 16u64) & 0xff < 256 && (v
        >> 24u64) & 0xff < 256 && (v >> 32u64) & 0xff < 256 && (v >> 40u64) & 0xff < 256 && (v
        >> 48u64) & 0xff < 256 && (v >> 56u64) & 0xff < 256) by (bit_vector);
    out.push(((v >> 0u64) & 0xff) as u8);
    out.push(((v >> 8u64) & 0xff) as u8);
    out.push(((v >> 16u64) & 0xff) as u8);
    out.push(((v >> 24u64) & 0xff) as u8);
    out.push(((v >> 32u64) & 0xff) as u8);
    out.push(((v >> 40u64) & 0xff) as u8);
    out.push(((v >> 48u64) & 0xff) as u8);
    out.push(((v >> 56u64) & 0xff) as u8);
    assert(out@ =~= spec_header_bytes(v));
    out
}

/// Decode the header value from the first eight bytes of `b`.
pub fn header_value(b: &Vec<u8>) -> (r: u64)
    requires
        b@.len() >= 8,
    ensures
        r == spec_header_value(b@),
{
    (b[0] as u64) | ((b[1] as u64) << 8u64) | ((b[2] as u64) << 16u64) | ((b[3] as u64) << 24u64)
        | ((b[4] as u64) << 32u64) | ((b[5] as u64) << 40u64) | ((b[6] as u64) << 48u64) | ((
    b[7] as u64) << 56u64)
}

/// Decoding the encoded header gives the value back: the in-band header
/// faithfully records the payload size it was written with.
pub proof fn lemma_header_round_trip(v: u64)
    ensures
        spec_header_value(spec_header_bytes(v)) == v,
{
    let s = spec_header_bytes(v);
    assert(s[0] == ((v >> 0u64) & 0xff) as u8);
    assert(s[1] == ((v >> 8u64) & 0xff) as u8);
    assert(s[2] == ((v >> 16u64) & 0xff) as u8);
    assert(s[3] == ((v >> 24u64) & 0xff) as u8);
    assert(s[4] == ((v >> 32u64) & 0xff) as u8);
    assert(s[5] == ((v >> 40u64) & 0xff) as u8);
    assert(s[6] == ((v >> 48u64) & 0xff) as u8);
    assert(s[7] == ((v >> 56u64) & 0xff) as u8);
    assert(((((v >> 0u64) & 0xff) as u8) as u64) | (((((v >> 8u64) & 0xff) as u8) as u64) << 8u64)
        | (((((v >> 16u64) & 0xff) as u8) as u64) << 16u64) | (((((v >> 24u64) & 0xff) as u8)
        as u64) << 24u64) | (((((v >> 32u64) & 0xff) as u8) as u64) << 32u64) | (((((v >> 40u64)
        & 0xff) as u8) as u64) << 40u64) | (((((v >> 48u64) & 0xff) as u8) as u64) << 48u64) | ((((
    (v >> 56u64) & 0xff) as u8) as u64) << 56u64) == v) by (bit_vector);
}

} // verus!
