//! Little-endian 32-bit integers, read from and written to byte buffers with `byteorder`.
use vstd::prelude::*;
use byteorder::{ByteOrder, LittleEndian};

verus! {

/// The value of four bytes read least significant first.
#[verifier::opaque]
pub open spec fn le_value(b: Seq<u8>) -> u32 {
    (b[0] + 256 * b[1] + 65536 * b[2] + 16777216 * b[3]) as u32
}

/// The little-endian value of the four bytes of `data` that start at `pos`.
pub open spec fn u32_at(data: Seq<u8>, pos: int) -> u32 {
    le_value(data.subrange(pos, pos + 4))
}

/// The four little-endian bytes of `v`, least significant first.
#[verifier::opaque]
pub open spec fn le_bytes(v: u32) -> Seq<u8> {
    seq![(v % 256) as u8, ((v / 256) % 256) as u8, ((v / 65536) % 256) as u8, (v / 16777216) as u8]
}

/// Calls `byteorder::LittleEndian::read_u32` on `data[pos..pos + 4]`.
/// Claimed: the result is the little-endian value of those four bytes.
#[verifier::external_body]
pub(crate) fn read_u32_le(data: &[u8], pos: usize) -> (r: u32)
    requires
        pos + 4 <= data@.len(),
    ensures
        r == u32_at(data@, pos as int),
{
    LittleEndian::read_u32(&data[pos..pos + 4])
}

/// Calls `byteorder::LittleEndian::write_u32` on a four-byte buffer.
/// Claimed: the buffer then holds the four little-endian bytes of `v`.
#[verifier::external_body]
fn u32_le_bytes(v: u32) -> (r: [u8; 4])
    ensures
        r@ == le_bytes(v),
{
    let mut buf = [0u8; 4];
    LittleEndian::write_u32(&mut buf, v);
    buf
}

/// Appends the four little-endian bytes of `v` to `out`.
pub(crate) fn push_u32_le(out: &mut Vec<u8>, v: u32)
    ensures
        final(out)@ == old(out)@ + le_bytes(v),
{
    let b = u32_le_bytes(v);
    proof {
        lemma_le_roundtrip(v);
    }
    out.push(b[0]);
    out.push(b[1]);
    out.push(b[2]);
    out.push(b[3]);
    assert(out@ =~= old(out)@ + le_bytes(v));
}

/// Decoding the encoding of a value gives the value back.
pub proof fn lemma_le_roundtrip(v: u32)
    ensures
        le_bytes(v).len() == 4,
        le_value(le_bytes(v)) == v,
{
    reveal(le_bytes);
    reveal(le_value);
    assert(v / 16777216 < 256) by (bit_vector);
    assert(v == v % 256 + 256 * ((v / 256) % 256) + 65536 * ((v / 65536) % 256) + 16777216 * (v / 16777216))
        by (bit_vector);
}

/// The value at `pos` of a buffer that holds the encoding of `v` there is `v`.
pub proof fn lemma_u32_at_encoding(pre: Seq<u8>, v: u32, post: Seq<u8>)
    ensures
        u32_at(pre + le_bytes(v) + post, pre.len() as int) == v,
{
    lemma_le_roundtrip(v);
    assert((pre + le_bytes(v) + post).subrange(pre.len() as int, pre.len() + 4int) =~= le_bytes(v));
}

} // verus!
