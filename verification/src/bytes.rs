//! Big-endian byte-order helpers shared by the chunk and zlib framing.

use vstd::prelude::*;

verus! {

/// The four-byte big-endian encoding of a 32-bit value.
pub open spec fn spec_u32_to_be(v: u32) -> Seq<u8> {
    seq![(v >> 24) as u8, (v >> 16) as u8, (v >> 8) as u8, v as u8]
}

/// The value that four big-endian bytes denote.
pub open spec fn spec_be_val(s: Seq<u8>) -> int {
    (s[0] as int) * 0x1000000 + (s[1] as int) * 0x10000 + (s[2] as int) * 0x100 + (s[3] as int)
}

/// Reading back the four big-endian bytes of a value yields the value.
pub proof fn lemma_be_round_trip(v: u32)
    ensures
        spec_be_val(spec_u32_to_be(v)) == v,
{
    let b0 = (v >> 24) as u8;
    let b1 = (v >> 16) as u8;
    let b2 = (v >> 8) as u8;
    let b3 = v as u8;
    assert((b0 as int) * 0x1000000 + (b1 as int) * 0x10000 + (b2 as int) * 0x100 + (b3 as int)
        == v) by (bit_vector)
        requires
            b0 == (v >> 24) as u8,
            b1 == (v >> 16) as u8,
            b2 == (v >> 8) as u8,
            b3 == v as u8,
    ;
}

/// Splits a 32-bit value into its four big-endian bytes.
pub fn u32_to_u8_be(v: u32) -> (r: [u8; 4])
    ensures
        r@ == spec_u32_to_be(v),
{
    let r = [(v >> 24) as u8, (v >> 16) as u8, (v >> 8) as u8, v as u8];
    assert(r@ =~= spec_u32_to_be(v));
    r
}

/// Appends the four big-endian bytes of a value to a byte buffer.
pub fn push_u32_be(out: &mut Vec<u8>, v: u32)
    ensures
        final(out)@ == old(out)@ + spec_u32_to_be(v),
{
    out.push((v >> 24) as u8);
    out.push((v >> 16) as u8);
    out.push((v >> 8) as u8);
    out.push(v as u8);
    assert(out@ =~= old(out)@ + spec_u32_to_be(v));
}

} // verus!
