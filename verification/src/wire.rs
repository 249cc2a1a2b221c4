//! Big-endian integers and small byte helpers.

use crate::buf::{contents, put_u8, room};
use bytes::BytesMut;
use vstd::prelude::*;

verus! {

/// The integer that two bytes of `s`, from `at` on, spell big-endian.
pub open spec fn be16(s: Seq<u8>, at: int) -> int {
    s[at] * 0x100 + s[at + 1]
}

/// The integer that three bytes of `s`, from `at` on, spell big-endian.
pub open spec fn be24(s: Seq<u8>, at: int) -> int {
    s[at] * 0x1_0000 + s[at + 1] * 0x100 + s[at + 2]
}

/// The integer that four bytes of `s`, from `at` on, spell big-endian.
pub open spec fn be32(s: Seq<u8>, at: int) -> int {
    s[at] * 0x100_0000 + s[at + 1] * 0x1_0000 + s[at + 2] * 0x100 + s[at + 3]
}

/// `n` in two big-endian bytes.
pub open spec fn be16_bytes(n: int) -> Seq<u8> {
    seq![(n / 0x100 % 0x100) as u8, (n % 0x100) as u8]
}

/// The low 24 bits of `n` in three big-endian bytes.
pub open spec fn be24_bytes(n: int) -> Seq<u8> {
    seq![(n / 0x1_0000 % 0x100) as u8, (n / 0x100 % 0x100) as u8, (n % 0x100) as u8]
}

/// `n` in four big-endian bytes.
pub open spec fn be32_bytes(n: int) -> Seq<u8> {
    seq![
        (n / 0x100_0000 % 0x100) as u8,
        (n / 0x1_0000 % 0x100) as u8,
        (n / 0x100 % 0x100) as u8,
        (n % 0x100) as u8,
    ]
}

/// Two bytes give back the number that was written in them.
pub proof fn lemma_be16_round_trip(n: int)
    requires
        0 <= n < 0x1_0000,
    ensures
        be16(be16_bytes(n), 0) == n,
        be16_bytes(n).len() == 2,
{
}

/// Three bytes give back the number that was written in them.
pub proof fn lemma_be24_round_trip(n: int)
    requires
        0 <= n < 0x100_0000,
    ensures
        be24(be24_bytes(n), 0) == n,
        be24_bytes(n).len() == 3,
{
}

/// Four bytes give back the number that was written in them.
pub proof fn lemma_be32_round_trip(n: int)
    requires
        0 <= n < 0x1_0000_0000,
    ensures
        be32(be32_bytes(n), 0) == n,
        be32_bytes(n).len() == 4,
{
}

/// Reads two big-endian bytes.
pub fn read_u16(s: &[u8], at: usize) -> (n: u16)
    requires
        at + 2 <= s@.len(),
    ensures
        n == be16(s@, at as int),
{
    s[at] as u16 * 0x100 + s[at + 1] as u16
}

/// Reads three big-endian bytes.
pub fn read_u24(s: &[u8], at: usize) -> (n: u32)
    requires
        at + 3 <= s@.len(),
    ensures
        n == be24(s@, at as int),
        n < 0x100_0000,
{
    s[at] as u32 * 0x1_0000 + s[at + 1] as u32 * 0x100 + s[at + 2] as u32
}

/// Reads four big-endian bytes.
pub fn read_u32(s: &[u8], at: usize) -> (n: u32)
    requires
        at + 4 <= s@.len(),
    ensures
        n == be32(s@, at as int),
{
    s[at] as u32 * 0x100_0000 + s[at + 1] as u32 * 0x1_0000 + s[at + 2] as u32 * 0x100 + s[at
        + 3] as u32
}

/// Appends `n` in two big-endian bytes.
pub fn put_u16(dst: &mut BytesMut, n: u16)
    ensures
        contents(*final(dst)) == contents(*old(dst)) + be16_bytes(n as int),
        room(*final(dst)) == room(*old(dst)),
{
    put_u8(dst, (n / 0x100) as u8);
    put_u8(dst, (n % 0x100) as u8);
    assert(contents(*dst) =~= contents(*old(dst)) + be16_bytes(n as int));
}

/// Appends the low 24 bits of `n` in three big-endian bytes.
pub fn put_u24(dst: &mut BytesMut, n: usize)
    ensures
        contents(*final(dst)) == contents(*old(dst)) + be24_bytes(n as int),
        room(*final(dst)) == room(*old(dst)),
{
    put_u8(dst, (n / 0x1_0000 % 0x100) as u8);
    put_u8(dst, (n / 0x100 % 0x100) as u8);
    put_u8(dst, (n % 0x100) as u8);
    assert(contents(*dst) =~= contents(*old(dst)) + be24_bytes(n as int));
}

/// Appends `n` in four big-endian bytes.
pub fn put_u32(dst: &mut BytesMut, n: u32)
    ensures
        contents(*final(dst)) == contents(*old(dst)) + be32_bytes(n as int),
        room(*final(dst)) == room(*old(dst)),
{
    put_u8(dst, (n / 0x100_0000) as u8);
    put_u8(dst, (n / 0x1_0000 % 0x100) as u8);
    put_u8(dst, (n / 0x100 % 0x100) as u8);
    put_u8(dst, (n % 0x100) as u8);
    assert(contents(*dst) =~= contents(*old(dst)) + be32_bytes(n as int));
}

/// Whether two slices hold the same bytes.
pub fn same_bytes(a: &[u8], b: &[u8]) -> (r: bool)
    ensures
        r == (a@ == b@),
{
    if a.len() != b.len() {
        return false;
    }
    let mut i: usize = 0;
    while i < a.len()
        invariant
            i <= a.len(),
            a@.len() == b@.len(),
            a@.take(i as int) =~= b@.take(i as int),
        decreases a.len() - i,
    {
        if a[i] != b[i] {
            return false;
        }
        i += 1;
    }
    assert(a@ =~= a@.take(i as int));
    assert(b@ =~= b@.take(i as int));
    true
}

/// A copy of a slice.
pub fn to_vec(s: &[u8]) -> (v: Vec<u8>)
    ensures
        v@ == s@,
{
    vstd::slice::slice_to_vec(s)
}

} // verus!
