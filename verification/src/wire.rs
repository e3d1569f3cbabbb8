//! Fixed-width little-endian integers, as the command buffer stores them.

use vstd::prelude::*;
use vstd::bytes::*;
use vstd::slice::slice_subrange;

verus! {

/// The width in bytes of an offset or a count.
pub const WORD_SIZE: usize = 8;

/// The width in bytes of a coordinate.
pub const COORD_SIZE: usize = 4;

/// The word that `b` holds in the eight bytes from `at` on.
pub open spec fn word_at(b: Seq<u8>, at: int) -> int {
    spec_u64_from_le_bytes(b.subrange(at, at + 8)) as int
}

/// The coordinate that `b` holds in the four bytes from `at` on.
pub open spec fn coord_at(b: Seq<u8>, at: int) -> u32 {
    spec_u32_from_le_bytes(b.subrange(at, at + 4))
}

/// The eight bytes that store the word `v`.
pub open spec fn word_bytes(v: u64) -> Seq<u8> {
    spec_u64_to_le_bytes(v)
}

/// The four bytes that store the coordinate `v`.
pub open spec fn coord_bytes(v: u32) -> Seq<u8> {
    spec_u32_to_le_bytes(v)
}

/// A word that was stored is read back, whatever surrounds it.
pub proof fn lemma_word_stored(b: Seq<u8>, at: int, v: u64)
    requires
        0 <= at,
        at + 8 <= b.len(),
        b.subrange(at, at + 8) == word_bytes(v),
    ensures
        word_at(b, at) == v,
{
    lemma_auto_spec_u64_to_from_le_bytes();
}

/// A coordinate that was stored is read back, whatever surrounds it.
pub proof fn lemma_coord_stored(b: Seq<u8>, at: int, v: u32)
    requires
        0 <= at,
        at + 4 <= b.len(),
        b.subrange(at, at + 4) == coord_bytes(v),
    ensures
        coord_at(b, at) == v,
{
    lemma_auto_spec_u32_to_from_le_bytes();
    assert(spec_u32_to_le_bytes(v).len() == 4);
}

/// Eight bytes are the only ones that store their word.
pub proof fn lemma_word_determines_bytes(a: Seq<u8>, at: int, b: Seq<u8>, bt: int)
    requires
        0 <= at,
        at + 8 <= a.len(),
        0 <= bt,
        bt + 8 <= b.len(),
        word_at(a, at) == word_at(b, bt),
    ensures
        a.subrange(at, at + 8) == b.subrange(bt, bt + 8),
{
    lemma_auto_spec_u64_to_from_le_bytes();
    let s = a.subrange(at, at + 8);
    let t = b.subrange(bt, bt + 8);
    assert(spec_u64_to_le_bytes(spec_u64_from_le_bytes(s)) == s);
    assert(spec_u64_to_le_bytes(spec_u64_from_le_bytes(t)) == t);
}

/// Four bytes are the only ones that store their coordinate.
pub proof fn lemma_coord_determines_bytes(a: Seq<u8>, at: int, b: Seq<u8>, bt: int)
    requires
        0 <= at,
        at + 4 <= a.len(),
        0 <= bt,
        bt + 4 <= b.len(),
        coord_at(a, at) == coord_at(b, bt),
    ensures
        a.subrange(at, at + 4) == b.subrange(bt, bt + 4),
{
    lemma_auto_spec_u32_to_from_le_bytes();
    let s = a.subrange(at, at + 4);
    let t = b.subrange(bt, bt + 4);
    assert(spec_u32_to_le_bytes(spec_u32_from_le_bytes(s)) == s);
    assert(spec_u32_to_le_bytes(spec_u32_from_le_bytes(t)) == t);
}

/// Stored words and coordinates have their fixed widths.
pub proof fn lemma_stored_widths(w: u64, c: u32)
    ensures
        word_bytes(w).len() == 8,
        coord_bytes(c).len() == 4,
{
    lemma_auto_spec_u64_to_from_le_bytes();
    lemma_auto_spec_u32_to_from_le_bytes();
    assert(spec_u32_to_le_bytes(c).len() == 4);
}

/// Reads the word stored in `buf` at `at`.
pub fn read_word(buf: &[u8], at: usize) -> (v: u64)
    requires
        at + 8 <= buf.len(),
    ensures
        v == word_at(buf@, at as int),
{
    u64_from_le_bytes(slice_subrange(buf, at, at + WORD_SIZE))
}

/// Reads the coordinate stored in `buf` at `at`.
pub fn read_coord(buf: &[u8], at: usize) -> (v: u32)
    requires
        at + 4 <= buf.len(),
    ensures
        v == coord_at(buf@, at as int),
{
    u32_from_le_bytes(slice_subrange(buf, at, at + COORD_SIZE))
}

/// The word at the start of `slice`, as an offset into memory.
pub fn to_usize(slice: &[u8]) -> (v: usize)
    requires
        slice.len() >= 8,
        word_at(slice@, 0) <= usize::MAX,
    ensures
        v == word_at(slice@, 0),
{
    read_word(slice, 0) as usize
}

/// Appends the eight bytes of the word `v` to `out`.
pub fn write_word(out: &mut Vec<u8>, v: usize)
    ensures
        final(out)@ == old(out)@ + word_bytes(v as u64),
{
    let mut bytes = u64_to_le_bytes(v as u64);
    out.append(&mut bytes);
}

/// Appends the four bytes of the coordinate `v` to `out`.
pub fn write_coord(out: &mut Vec<u8>, v: u32)
    ensures
        final(out)@ == old(out)@ + coord_bytes(v),
{
    let mut bytes = u32_to_le_bytes(v);
    out.append(&mut bytes);
}

/// Appends a copy of `bytes` to `out`.
pub fn write_bytes(out: &mut Vec<u8>, bytes: &[u8])
    ensures
        final(out)@ == old(out)@ + bytes@,
{
    out.extend_from_slice(bytes);
    assert(out@ =~= old(out)@ + bytes@);
}

} // verus!
