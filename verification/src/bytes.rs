//! Integers and runs of bytes in byte buffers.

use vstd::prelude::*;

verus! {

/// The two bytes of `v`, lowest first.
pub open spec fn le16(v: u16) -> Seq<u8> {
    seq![(v % 0x100) as u8, (v / 0x100) as u8]
}

/// The four bytes of `v`, lowest first.
pub open spec fn le32(v: u32) -> Seq<u8> {
    seq![
        (v % 0x100) as u8,
        (v / 0x100 % 0x100) as u8,
        (v / 0x1_0000 % 0x100) as u8,
        (v / 0x100_0000) as u8,
    ]
}

/// The number whose four bytes, lowest first, stand in `s` from `at` on.
pub open spec fn le32_at(s: Seq<u8>, at: int) -> int {
    s[at] + 0x100 * s[at + 1] + 0x1_0000 * s[at + 2] + 0x100_0000 * s[at + 3]
}

/// The number whose four bytes, highest first, stand in `s` from `at` on.
pub open spec fn be32_at(s: Seq<u8>, at: int) -> int {
    0x100_0000 * s[at] + 0x1_0000 * s[at + 1] + 0x100 * s[at + 2] + s[at + 3]
}

/// The four bytes of `v`, highest first.
pub open spec fn be32(v: int) -> Seq<u8> {
    seq![
        (v / 0x100_0000) as u8,
        (v / 0x1_0000 % 0x100) as u8,
        (v / 0x100 % 0x100) as u8,
        (v % 0x100) as u8,
    ]
}

/// Reading the bytes of a number gives the number back.
pub proof fn lemma_le32_at(s: Seq<u8>, at: int, v: u32)
    requires
        0 <= at,
        at + 4 <= s.len(),
        s.subrange(at, at + 4) == le32(v),
    ensures
        le32_at(s, at) == v,
{
    let field = s.subrange(at, at + 4);
    assert(s[at] == field[0] && s[at + 1] == field[1] && s[at + 2] == field[2] && s[at + 3]
        == field[3]);
}

/// Reading the bytes of a number, highest first, gives the number back.
pub proof fn lemma_be32_at(s: Seq<u8>, at: int, v: int)
    requires
        0 <= at,
        at + 4 <= s.len(),
        0 <= v <= u32::MAX,
        s.subrange(at, at + 4) == be32(v),
    ensures
        be32_at(s, at) == v,
{
    let field = s.subrange(at, at + 4);
    assert(s[at] == field[0] && s[at + 1] == field[1] && s[at + 2] == field[2] && s[at + 3]
        == field[3]);
    lemma_be32_value(v);
}

proof fn lemma_be32_value(v: int)
    requires
        0 <= v <= u32::MAX,
    ensures
        be32_at(be32(v), 0) == v,
{
}

/// Appends a run of bytes.
pub fn put_bytes(out: &mut Vec<u8>, data: &[u8])
    ensures
        final(out)@ == old(out)@ + data@,
{
    let ghost before = out@;
    out.extend_from_slice(data);
    assert(out@ =~= before + data@);
}

/// Appends a number of two bytes, lowest first.
pub fn put_le16(out: &mut Vec<u8>, v: u16)
    ensures
        final(out)@ == old(out)@ + le16(v),
{
    let ghost before = out@;
    out.push((v % 0x100) as u8);
    out.push((v / 0x100) as u8);
    assert(out@ =~= before + le16(v));
}

/// Appends a number of four bytes, lowest first.
pub fn put_le32(out: &mut Vec<u8>, v: u32)
    ensures
        final(out)@ == old(out)@ + le32(v),
{
    let ghost before = out@;
    out.push((v % 0x100) as u8);
    out.push((v / 0x100 % 0x100) as u8);
    out.push((v / 0x1_0000 % 0x100) as u8);
    out.push((v / 0x100_0000) as u8);
    assert(out@ =~= before + le32(v));
}

/// Reads a number of four bytes, lowest first.
pub fn get_le32(s: &[u8], at: usize) -> (v: u32)
    requires
        at + 4 <= s@.len(),
    ensures
        v == le32_at(s@, at as int),
{
    s[at] as u32 + 0x100 * (s[at + 1] as u32) + 0x1_0000 * (s[at + 2] as u32) + 0x100_0000 * (
    s[at + 3] as u32)
}

/// Reads a number of four bytes, highest first.
pub fn get_be32(s: &[u8], at: usize) -> (v: u32)
    requires
        at + 4 <= s@.len(),
    ensures
        v == be32_at(s@, at as int),
{
    0x100_0000 * (s[at] as u32) + 0x1_0000 * (s[at + 1] as u32) + 0x100 * (s[at + 2] as u32)
        + s[at + 3] as u32
}

/// The bytes of a number add up to it, each worth 256 times the one before.
pub proof fn lemma_little_endian(short: u16, long: u32)
    ensures
        le16(short).len() == 2,
        le16(short)[0] + 256 * le16(short)[1] == short,
        le32(long).len() == 4,
        le32(long)[0] + 256 * le32(long)[1] + 65536 * le32(long)[2] + 16777216 * le32(long)[3]
            == long,
{
}

/// A number that is read is the sum of its bytes, each worth 256 times the one before,
/// or the one behind where the highest comes first.
pub proof fn lemma_numbers_read(s: Seq<u8>, at: int)
    requires
        0 <= at,
        at + 4 <= s.len(),
    ensures
        le32_at(s, at) == s[at] + 256 * (s[at + 1] + 256 * (s[at + 2] + 256 * s[at + 3])),
        be32_at(s, at) == s[at + 3] + 256 * (s[at + 2] + 256 * (s[at + 1] + 256 * s[at])),
{
}

} // verus!
