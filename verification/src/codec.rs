//! Little-endian byte encoding of the integers stored in a time index track.
use vstd::bytes::{
    lemma_auto_spec_u64_to_from_le_bytes, spec_u64_from_le_bytes, spec_u64_to_le_bytes,
    spec_u64_to_le_bytes_open, spec_u64_to_le_bytes_to_open, u64_from_le_bytes, u64_to_le_bytes,
};
use vstd::prelude::*;
use vstd::slice::slice_subrange;

verus! {

/// The eight little-endian bytes of a signed 64-bit value (two's complement).
pub open spec fn i64_le(x: i64) -> Seq<u8> {
    spec_u64_to_le_bytes(x as u64)
}

/// The signed 64-bit value held in eight little-endian bytes.
pub open spec fn i64_from_le(s: Seq<u8>) -> i64 {
    spec_u64_from_le_bytes(s) as i64
}

/// Encoding then decoding a `u64` or `i64` gives it back, and the encoding has 8 bytes.
pub proof fn lemma_le_roundtrip()
    ensures
        forall|x: u64| #![trigger spec_u64_to_le_bytes(x)]
            spec_u64_to_le_bytes(x).len() == 8 && spec_u64_from_le_bytes(spec_u64_to_le_bytes(x)) == x,
        forall|x: i64| #![trigger i64_le(x)] i64_le(x).len() == 8 && i64_from_le(i64_le(x)) == x,
{
    lemma_auto_spec_u64_to_from_le_bytes();
    assert forall|x: i64| #![trigger i64_le(x)] i64_le(x).len() == 8 && i64_from_le(i64_le(x)) == x by {
        let u = x as u64;
        assert(spec_u64_from_le_bytes(spec_u64_to_le_bytes(u)) == u);
        assert(((x as u64) as i64) == x) by (bit_vector);
    }
}

/// Appends the little-endian bytes of `x` to `out`.
pub fn push_u64_le(out: &mut Vec<u8>, x: u64)
    ensures
        final(out)@ == old(out)@ + spec_u64_to_le_bytes(x),
{
    let mut bytes = u64_to_le_bytes(x);
    out.append(&mut bytes);
}

/// Appends the little-endian two's complement bytes of `x` to `out`.
pub fn push_i64_le(out: &mut Vec<u8>, x: i64)
    ensures
        final(out)@ == old(out)@ + i64_le(x),
{
    push_u64_le(out, x as u64);
}

/// Reads the `u64` stored little-endian at `pos`.
pub fn read_u64_le(data: &[u8], pos: usize) -> (x: u64)
    requires
        pos + 8 <= data@.len(),
    ensures
        x == spec_u64_from_le_bytes(data@.subrange(pos as int, pos + 8)),
{
    let len = data.len();
    assert(pos + 8 <= len);
    let part = slice_subrange(data, pos, pos + 8);
    u64_from_le_bytes(part)
}

/// Reads the `i64` stored little-endian at `pos`.
pub fn read_i64_le(data: &[u8], pos: usize) -> (x: i64)
    requires
        pos + 8 <= data@.len(),
    ensures
        x == i64_from_le(data@.subrange(pos as int, pos + 8)),
{
    read_u64_le(data, pos) as i64
}

/// A timestamp is stored as the eight little-endian bytes of its two's complement, exactly
/// as `i64::to_le_bytes` writes them, and read back as `i64::from_le_bytes` reads them.
pub proof fn law_i64_two_complement_le(x: i64, s: Seq<u8>)
    ensures
        i64_le(x) == spec_u64_to_le_bytes(x as u64),
        i64_le(x) == spec_u64_to_le_bytes_open(x as u64),
        i64_from_le(s) == spec_u64_from_le_bytes(s) as i64,
        i64_from_le(spec_u64_to_le_bytes(x as u64)) == x,
{
    spec_u64_to_le_bytes_to_open(x as u64);
    lemma_le_roundtrip();
    assert(i64_le(x) == spec_u64_to_le_bytes(x as u64));
}

} // verus!
