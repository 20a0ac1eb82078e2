use vstd::prelude::*;
use byteorder::ByteOrder;

verus! {

/// The little-endian value of the four bytes of `b` starting at `off`.
pub open spec fn le_u32_at(b: Seq<u8>, off: int) -> int {
    b[off] as int + 256 * b[off + 1] as int + 65536 * b[off + 2] as int + 16777216 * b[off + 3] as int
}

/// The four little-endian bytes of `v`.
pub open spec fn le_bytes(v: u32) -> Seq<u8> {
    seq![(v % 256) as u8, ((v / 256) % 256) as u8, ((v / 65536) % 256) as u8, (v / 16777216) as u8]
}

/// Reads a little-endian `u32` from the first four bytes of `buf`.
///
/// Calls `byteorder::LittleEndian::read_u32`, which is believed to return the
/// little-endian value of `buf[0..4]`; it panics on shorter slices, which the
/// `requires` leaves out.
#[verifier::external_body]
pub(crate) fn read_u32_le_prefix(buf: &[u8]) -> (r: u32)
    requires
        buf@.len() >= 4,
    ensures
        r as int == le_u32_at(buf@, 0),
{
    byteorder::LittleEndian::read_u32(buf)
}

pub proof fn lemma_le_bytes_value(v: u32)
    ensures
        le_u32_at(le_bytes(v), 0) == v as int,
        le_bytes(v).len() == 4,
{
}

/// Appends the four little-endian bytes of `v` to `out`.
pub fn push_u32_le(out: &mut Vec<u8>, v: u32)
    ensures
        final(out)@ == old(out)@ + le_bytes(v),
{
    out.push((v % 256) as u8);
    out.push(((v / 256) % 256) as u8);
    out.push(((v / 65536) % 256) as u8);
    out.push((v / 16777216) as u8);
    assert(out@ =~= old(out)@ + le_bytes(v));
}

} // verus!
