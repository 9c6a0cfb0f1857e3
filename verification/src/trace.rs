//! The diagnostic tracer: renders an operation label and two numeric
//! values as one line of fixed-width hexadecimal text, byte for byte
//! the output the allocator writes to the standard output stream.

use vstd::prelude::*;

verus! {

/// A hexadecimal digit for the low four bits of `v`.
pub open spec fn spec_hex_digit(v: u8) -> u8
    recommends
        v < 16,
{
    if v < 10 {
        (48 + v) as u8
    } else {
        (87 + v) as u8
    }
}

/// The sixteen hexadecimal digits of `v`, most significant first.
pub open spec fn spec_hex16(v: u64) -> Seq<u8> {
    Seq::new(16, |i: int| spec_hex_digit(((v >> (((15 - i) * 4) as u64)) & 0xf) as u8))
}

/// One trace line: the label, the first value, a space, the second
/// value, and a newline, the values as sixteen hexadecimal digits each.
pub open spec fn spec_line(label: Seq<u8>, a: u64, b: u64) -> Seq<u8> {
    label + spec_hex16(a) + seq![32u8] + spec_hex16(b) + seq![10u8]
}

/// Render the low four bits of `v` as an ASCII hexadecimal digit.
pub fn hex_digit(v: u8) -> (r: u8)
    ensures
        r == spec_hex_digit(v & 0xf),
{
    let x = v & 0xf;
    assert(v & 0xf < 16) by (bit_vector);
    if x < 10 {
        48 + x
    } else {
        87 + x
    }
}

/// Append the sixteen hexadecimal digits of `v` to `out`, most
/// significant digit first.
pub fn append_hex16(out: &mut Vec<u8>, v: u64)
    ensures
        final(out)@ == old(out)@ + spec_hex16(v),
{
    let mut i: usize = 0;
    while i < 16
        invariant
            i <= 16,
            out@ == old(out)@ + spec_hex16(v).take(i as int),
        decreases 16 - i,
    {
        let shift: u64 = (15 - i as u64) * 4;
        assert((v >> shift) & 0xf < 16) by (bit_vector);
        let nibble: u8 = ((v >> shift) & 0xf) as u8;
        let d = hex_digit(nibble);
        proof {
            assert(nibble & 0xf == nibble) by (bit_vector)
                requires
                    nibble < 16,
            ;
            assert(shift == ((15 - i as int) * 4) as u64);
            assert(d == spec_hex16(v)[i as int]);
        }
        out.push(d);
        assert(out@ == old(out)@ + spec_hex16(v).take(i as int + 1));
        i = i + 1;
    }
    assert(spec_hex16(v).take(16) == spec_hex16(v));
}

/// Append a copy of `src` to `dst`.
pub fn append_bytes(dst: &mut Vec<u8>, src: &Vec<u8>)
    ensures
        final(dst)@ == old(dst)@ + src@,
{
    let mut i: usize = 0;
    while i < src.len()
        invariant
            i <= src.len(),
            dst@ == old(dst)@ + src@.take(i as int),
        decreases src.len() - i,
    {
        dst.push(src[i]);
        assert(dst@ == old(dst)@ + src@.take(i as int + 1));
        i = i + 1;
    }
    assert(src@.take(src@.len() as int) == src@);
}

/// Render one trace line for `label` and the two values.
pub fn render_line(label: &Vec<u8>, a: usize, b: usize) -> (r: Vec<u8>)
    ensures
        r@ == spec_line(label@, a as u64, b as u64),
{
    let mut out: Vec<u8> = Vec::new();
    append_bytes(&mut out, label);
    append_hex16(&mut out, a as u64);
    out.push(32);
    append_hex16(&mut out, b as u64);
    out.push(10);
    assert(out@ == spec_line(label@, a as u64, b as u64));
    out
}

} // verus!
