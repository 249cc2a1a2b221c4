//! Integers in a header block.

use crate::buf::{contents, put_u8, room};
use crate::hpack::error::{DecoderError, NeedMore};
use bytes::BytesMut;
use vstd::arithmetic::div_mod::{lemma_mod_add_multiples_vanish, lemma_small_mod};
use vstd::prelude::*;

verus! {

/// Every integer that can be read is smaller than this.
pub const INTEGER_BOUND: usize = 0x1000_0080;

/// The integer that the bytes after a full prefix spell, and what stands behind
/// it. `value` is what was read so far, `weight` what the next seven bits count
/// for, and `count` the number of bytes read.
pub open spec fn varint_of(s: Seq<u8>, value: int, weight: int, count: int) -> Result<
    (int, Seq<u8>),
    DecoderError,
>
    decreases s.len(),
{
    if s.len() == 0 {
        Err(DecoderError::NeedMore(NeedMore::IntegerUnderflow))
    } else {
        let v = value + (s[0] as int % 128) * weight;
        if s[0] < 128 {
            Ok((v, s.skip(1)))
        } else if count + 1 == 5 {
            Err(DecoderError::IntegerOverflow)
        } else {
            varint_of(s.skip(1), v, weight * 128, count + 1)
        }
    }
}

/// The integer at the start of `s`, in a prefix that holds numbers up to
/// `limit` and in the bytes after it, and what stands behind it.
pub open spec fn integer_of(s: Seq<u8>, limit: int) -> Result<(int, Seq<u8>), DecoderError> {
    if s.len() == 0 {
        Err(DecoderError::NeedMore(NeedMore::IntegerUnderflow))
    } else if s[0] as int % limit < limit - 1 {
        Ok((s[0] as int % limit, s.skip(1)))
    } else {
        varint_of(s.skip(1), limit - 1, 1, 1)
    }
}

proof fn lemma_varint_shrinks(s: Seq<u8>, value: int, weight: int, count: int)
    requires
        value >= 0,
        weight >= 0,
    ensures
        varint_of(s, value, weight, count) matches Ok((n, rest)) ==> n >= 0 && rest.len() < s.len(),
    decreases s.len(),
{
    if s.len() > 0 {
        let low = s[0] as int % 128;
        assert(low * weight >= 0) by (nonlinear_arith)
            requires
                low >= 0,
                weight >= 0,
        ;
        if s[0] >= 128 && count + 1 != 5 {
            lemma_varint_shrinks(s.skip(1), value + low * weight, weight * 128, count + 1);
        }
    }
}

/// Reading an integer takes at least one byte.
pub proof fn lemma_integer_shrinks(s: Seq<u8>, limit: int)
    requires
        limit > 0,
    ensures
        integer_of(s, limit) matches Ok((n, rest)) ==> n >= 0 && rest.len() < s.len(),
{
    if s.len() > 0 {
        lemma_varint_shrinks(s.skip(1), limit - 1, 1, 1);
    }
}

/// Reads the integer that stands at `at`, and says where it ends.
pub fn read_integer(src: &[u8], at: usize, limit: u8) -> (r: Result<(usize, usize), DecoderError>)
    requires
        at <= src@.len(),
        limit == 16 || limit == 32 || limit == 64 || limit == 128,
    ensures
        match r {
            Ok((n, end)) => {
                &&& at < end <= src@.len()
                &&& n < INTEGER_BOUND
                &&& integer_of(src@.skip(at as int), limit as int) == Ok::<
                    (int, Seq<u8>),
                    DecoderError,
                >((n as int, src@.skip(end as int)))
            },
            Err(e) => integer_of(src@.skip(at as int), limit as int) == Err::<
                (int, Seq<u8>),
                DecoderError,
            >(e),
        },
{
    if at >= src.len() {
        return Err(DecoderError::NeedMore(NeedMore::IntegerUnderflow));
    }
    assert(src@.skip(at as int).skip(1) =~= src@.skip(at + 1));
    let first: u8 = src[at] % limit;
    if first < limit - 1 {
        return Ok((first as usize, at + 1));
    }
    let mut value: usize = first as usize;
    let mut weight: usize = 1;
    let mut count: usize = 1;
    let mut pos: usize = at + 1;
    while pos < src.len()
        invariant
            at < pos <= src@.len(),
            1 <= count <= 4,
            count == 1 ==> weight == 1 && value <= 127,
            count == 2 ==> weight == 128 && value <= 254,
            count == 3 ==> weight == 16384 && value <= 16510,
            count == 4 ==> weight == 2097152 && value <= 2097278,
            integer_of(src@.skip(at as int), limit as int) == varint_of(
                src@.skip(pos as int),
                value as int,
                weight as int,
                count as int,
            ),
        decreases src.len() - pos,
    {
        let b: u8 = src[pos];
        let low: usize = (b % 128) as usize;
        assert(low * weight <= 127 * weight) by (nonlinear_arith)
            requires
                low <= 127,
        ;
        assert(src@.skip(pos as int).skip(1) =~= src@.skip(pos + 1));
        value = value + low * weight;
        if b < 128 {
            return Ok((value, pos + 1));
        }
        if count + 1 == 5 {
            return Err(DecoderError::IntegerOverflow);
        }
        weight = weight * 128;
        count = count + 1;
        pos = pos + 1;
    }
    Err(DecoderError::NeedMore(NeedMore::IntegerUnderflow))
}

/// The bytes after a full prefix that spell `n`.
pub open spec fn varint_bytes(n: int) -> Seq<u8>
    decreases n,
{
    if n < 128 {
        seq![n as u8]
    } else {
        seq![(128 + n % 128) as u8] + varint_bytes(n / 128)
    }
}

/// `n` in a prefix that holds numbers up to `limit`, behind the bits `flags`,
/// and in the bytes after it.
pub open spec fn integer_bytes(flags: int, limit: int, n: int) -> Seq<u8> {
    if n < limit - 1 {
        seq![(flags + n) as u8]
    } else {
        seq![(flags + limit - 1) as u8] + varint_bytes(n - (limit - 1))
    }
}

/// Appends `n` in a prefix that holds numbers up to `limit`.
pub fn write_integer(dst: &mut BytesMut, flags: u8, limit: u8, n: usize)
    requires
        limit > 1,
        flags + limit <= 256,
    ensures
        contents(*final(dst)) == contents(*old(dst)) + integer_bytes(flags as int, limit as int, n as int),
        room(*final(dst)) == room(*old(dst)),
{
    let top: u8 = limit - 1;
    if n < top as usize {
        put_u8(dst, flags + n as u8);
        assert(contents(*dst) =~= contents(*old(dst)) + integer_bytes(flags as int, limit as int, n as int));
        return;
    }
    put_u8(dst, flags + top);
    let mut m: usize = n - top as usize;
    while m >= 128
        invariant
            room(*dst) == room(*old(dst)),
            contents(*dst) + varint_bytes(m as int) =~= contents(*old(dst)) + integer_bytes(
                flags as int,
                limit as int,
                n as int,
            ),
        decreases m,
    {
        let ghost before = contents(*dst);
        let ghost n0 = m as int;
        put_u8(dst, 128 + (m % 128) as u8);
        m = m / 128;
        assert(contents(*dst) + varint_bytes(m as int) =~= before + varint_bytes(n0));
    }
    put_u8(dst, m as u8);
}

proof fn lemma_varint_round_trip(m: int, rest: Seq<u8>, value: int, weight: int, count: int)
    requires
        0 <= m,
        1 <= count <= 4,
        count == 1 ==> m < 0x1000_0000,
        count == 2 ==> m < 0x20_0000,
        count == 3 ==> m < 0x4000,
        count == 4 ==> m < 0x80,
    ensures
        varint_of(varint_bytes(m) + rest, value, weight, count) == Ok::<
            (int, Seq<u8>),
            DecoderError,
        >((value + m * weight, rest)),
    decreases m,
{
    let s = varint_bytes(m) + rest;
    if m < 128 {
        assert(s.skip(1) =~= rest);
        assert(s[0] == m);
    } else {
        let q = m / 128;
        let v = value + (m % 128) * weight;
        assert(s[0] == 128 + m % 128);
        assert(s.skip(1) =~= varint_bytes(q) + rest);
        lemma_varint_round_trip(q, rest, v, weight * 128, count + 1);
        assert(v + q * (weight * 128) == value + m * weight) by (nonlinear_arith)
            requires
                v == value + (m % 128) * weight,
                q == m / 128,
        ;
    }
}

/// An integer that was written reads back as it was.
pub proof fn lemma_integer_round_trip(flags: int, limit: int, n: int, rest: Seq<u8>)
    requires
        limit == 16 || limit == 32 || limit == 64 || limit == 128,
        flags == 0 || flags == limit && limit <= 64,
        0 <= n < 0x1000_0000,
    ensures
        integer_of(integer_bytes(flags, limit, n) + rest, limit) == Ok::<
            (int, Seq<u8>),
            DecoderError,
        >((n, rest)),
        integer_bytes(flags, limit, n).len() > 0,
        flags <= integer_bytes(flags, limit, n)[0] < flags + limit,
{
    let s = integer_bytes(flags, limit, n) + rest;
    let low = if n < limit - 1 {
        n
    } else {
        limit - 1
    };
    assert((flags + low) % limit == low) by {
        if flags == 0 {
            lemma_small_mod(low as nat, limit as nat);
        } else {
            lemma_mod_add_multiples_vanish(low, limit);
            lemma_small_mod(low as nat, limit as nat);
        }
    }
    if n < limit - 1 {
        assert(s[0] == flags + n);
        assert(s.skip(1) =~= rest);
    } else {
        assert(s[0] == flags + limit - 1);
        assert(s.skip(1) =~= varint_bytes(n - (limit - 1)) + rest);
        lemma_varint_round_trip(n - (limit - 1), rest, limit - 1, 1, 1);
    }
}

proof fn lemma_varint_cut(m: int, j: int, value: int, weight: int, count: int)
    requires
        0 <= m,
        1 <= count <= 4,
        count == 1 ==> m < 0x1000_0000,
        count == 2 ==> m < 0x20_0000,
        count == 3 ==> m < 0x4000,
        count == 4 ==> m < 0x80,
        0 <= j < varint_bytes(m).len(),
    ensures
        varint_of(varint_bytes(m).take(j), value, weight, count) == Err::<
            (int, Seq<u8>),
            DecoderError,
        >(DecoderError::NeedMore(NeedMore::IntegerUnderflow)),
    decreases m,
{
    let s = varint_bytes(m).take(j);
    if j > 0 {
        let q = m / 128;
        assert(m >= 128);
        assert(s[0] == 128 + m % 128);
        assert(s.skip(1) =~= varint_bytes(q).take(j - 1));
        lemma_varint_cut(q, j - 1, value + (s[0] as int % 128) * weight, weight * 128, count + 1);
    }
}

/// An integer that is cut short asks for more.
pub proof fn lemma_integer_cut(n: int, j: int)
    requires
        0 <= n < 0x1000_0000,
        0 <= j < integer_bytes(0, 128, n).len(),
    ensures
        integer_of(integer_bytes(0, 128, n).take(j), 128) == Err::<(int, Seq<u8>), DecoderError>(
            DecoderError::NeedMore(NeedMore::IntegerUnderflow),
        ),
{
    let s = integer_bytes(0, 128, n).take(j);
    if j > 0 {
        assert(s[0] == 127);
        assert(s.skip(1) =~= varint_bytes(n - 127).take(j - 1));
        lemma_varint_cut(n - 127, j - 1, 127, 1, 1);
    }
}

} // verus!
