use vstd::prelude::*;

verus! {

/// The little-endian `u32` made of four bytes.
pub open spec fn u32_from_le(b0: u8, b1: u8, b2: u8, b3: u8) -> u32 {
    (b0 as u32) | ((b1 as u32) << 8u32) | ((b2 as u32) << 16u32) | ((b3 as u32) << 24u32)
}

/// The little-endian `u32` stored at byte offset `off` of `s`.
pub open spec fn le_u32(s: Seq<u8>, off: int) -> u32 {
    u32_from_le(s[off], s[off + 1], s[off + 2], s[off + 3])
}

/// `s` with the little-endian bytes of `v` stored at byte offset `off`.
pub open spec fn set_u32(s: Seq<u8>, off: int, v: u32) -> Seq<u8> {
    s.update(off, (v & 0xff) as u8).update(off + 1, ((v >> 8u32) & 0xff) as u8).update(
        off + 2,
        ((v >> 16u32) & 0xff) as u8,
    ).update(off + 3, ((v >> 24u32) & 0xff) as u8)
}

/// `s` with the bytes `data` stored from byte offset `off` on.
pub open spec fn splice(s: Seq<u8>, off: int, data: Seq<u8>) -> Seq<u8> {
    s.subrange(0, off) + data + s.subrange(off + data.len(), s.len() as int)
}

pub proof fn lemma_u32_le_round_trip(v: u32)
    ensures
        u32_from_le(
            (v & 0xff) as u8,
            ((v >> 8u32) & 0xff) as u8,
            ((v >> 16u32) & 0xff) as u8,
            ((v >> 24u32) & 0xff) as u8,
        ) == v,
{
    assert((v & 0xff) <= 0xff && ((v >> 8u32) & 0xff) <= 0xff && ((v >> 16u32) & 0xff) <= 0xff
        && ((v >> 24u32) & 0xff) <= 0xff) by (bit_vector);
    assert(((v & 0xff) | (((v >> 8u32) & 0xff) << 8u32) | (((v >> 16u32) & 0xff) << 16u32) | (((
        v >> 24u32) & 0xff) << 24u32)) == v) by (bit_vector);
}

/// Reading a word back where it was stored gives it.
pub proof fn lemma_set_u32_same(s: Seq<u8>, off: int, v: u32)
    requires
        0 <= off,
        off + 4 <= s.len(),
    ensures
        set_u32(s, off, v).len() == s.len(),
        le_u32(set_u32(s, off, v), off) == v,
{
    lemma_u32_le_round_trip(v);
}

/// Reading a word back where it was stored gives it; other words stay as they were.
pub proof fn lemma_set_u32(s: Seq<u8>, off: int, v: u32, other: int)
    requires
        0 <= off,
        off + 4 <= s.len(),
        0 <= other,
        other + 4 <= s.len(),
        other + 4 <= off || off + 4 <= other,
    ensures
        set_u32(s, off, v).len() == s.len(),
        le_u32(set_u32(s, off, v), off) == v,
        le_u32(set_u32(s, off, v), other) == le_u32(s, other),
{
    lemma_u32_le_round_trip(v);
}

/// Reads the little-endian `u32` at byte offset `off`.
pub fn read_le_u32(s: &[u8], off: usize) -> (r: u32)
    requires
        off + 4 <= s@.len(),
    ensures
        r == le_u32(s@, off as int),
{
    (s[off] as u32) | ((s[off + 1] as u32) << 8u32) | ((s[off + 2] as u32) << 16u32) | ((s[off
        + 3] as u32) << 24u32)
}

} // verus!
