//! A representation that is cut short asks for more, and one that is whole is read the
//! same whatever is missing behind it.

use crate::hpack::decoder::{
    literal_of, step_of, string_of, DecoderView, StepView,
};
use crate::hpack::error::DecoderError;
use crate::hpack::field::FieldView;
use crate::hpack::integer::{integer_of, lemma_integer_shrinks, varint_of};
use crate::hpack::table::TableView;
use vstd::prelude::*;

verus! {

proof fn lemma_varint_prefix(s: Seq<u8>, k: int, value: int, weight: int, count: int) -> (m: int)
    requires
        varint_of(s, value, weight, count) is Ok,
        0 <= k <= s.len(),
    ensures
        ({
            let (n, rest) = varint_of(s, value, weight, count)->Ok_0;
            &&& 0 < m <= s.len()
            &&& rest == s.skip(m)
            &&& k >= m ==> varint_of(s.take(k), value, weight, count) == Ok::<
                (int, Seq<u8>),
                DecoderError,
            >((n, s.take(k).skip(m)))
            &&& k < m ==> (varint_of(s.take(k), value, weight, count) matches Err(
                DecoderError::NeedMore(_),
            ))
        }),
    decreases s.len(),
{
    if s[0] < 128 {
        1
    } else {
        let v = value + (s[0] as int % 128) * weight;
        if k == 0 {
            let m = lemma_varint_prefix(s.skip(1), 0, v, weight * 128, count + 1);
            assert(s.skip(1).skip(m) =~= s.skip(m + 1));
            m + 1
        } else {
            let m = lemma_varint_prefix(s.skip(1), k - 1, v, weight * 128, count + 1);
            assert(s.take(k).skip(1) =~= s.skip(1).take(k - 1));
            assert(s.skip(1).skip(m) =~= s.skip(m + 1));
            if k - 1 >= m {
                assert(s.skip(1).take(k - 1).skip(m) =~= s.take(k).skip(m + 1));
            }
            m + 1
        }
    }
}

/// An integer that can be read: where it ends, and what becomes of it if the bytes are
/// cut.
pub proof fn lemma_integer_prefix(s: Seq<u8>, k: int, limit: int) -> (m: int)
    requires
        integer_of(s, limit) is Ok,
        0 <= k <= s.len(),
    ensures
        ({
            let (n, rest) = integer_of(s, limit)->Ok_0;
            &&& 0 < m <= s.len()
            &&& rest == s.skip(m)
            &&& k >= m ==> integer_of(s.take(k), limit) == Ok::<(int, Seq<u8>), DecoderError>(
                (n, s.take(k).skip(m)),
            )
            &&& k < m ==> (integer_of(s.take(k), limit) matches Err(DecoderError::NeedMore(_)))
        }),
{
    if s[0] as int % limit < limit - 1 {
        1
    } else if k == 0 {
        let m = lemma_varint_prefix(s.skip(1), 0, limit - 1, 1, 1);
        assert(s.skip(1).skip(m) =~= s.skip(m + 1));
        m + 1
    } else {
        let m = lemma_varint_prefix(s.skip(1), k - 1, limit - 1, 1, 1);
        assert(s.take(k).skip(1) =~= s.skip(1).take(k - 1));
        assert(s.skip(1).skip(m) =~= s.skip(m + 1));
        if k - 1 >= m {
            assert(s.skip(1).take(k - 1).skip(m) =~= s.take(k).skip(m + 1));
        }
        m + 1
    }
}

proof fn lemma_string_prefix(s: Seq<u8>, k: int) -> (m: int)
    requires
        string_of(s) is Ok,
        0 <= k <= s.len(),
    ensures
        ({
            let (text, rest) = string_of(s)->Ok_0;
            &&& 0 < m <= s.len()
            &&& rest == s.skip(m)
            &&& k >= m ==> string_of(s.take(k)) == Ok::<(Seq<u8>, Seq<u8>), DecoderError>(
                (text, s.take(k).skip(m)),
            )
            &&& k < m ==> (string_of(s.take(k)) matches Err(DecoderError::NeedMore(_)))
        }),
{
    let a = lemma_integer_prefix(s, k, 128);
    lemma_integer_shrinks(s, 128);
    let (len, rest) = integer_of(s, 128)->Ok_0;
    let m = a + len;
    assert(rest.skip(len) =~= s.skip(m));
    if k >= a {
        let cut = s.take(k).skip(a);
        if k >= m {
            assert(cut.take(len) =~= rest.take(len));
            assert(cut.skip(len) =~= s.take(k).skip(m));
        }
    }
    m
}

proof fn lemma_literal_prefix(table: TableView, s: Seq<u8>, k: int, limit: int) -> (m: int)
    requires
        literal_of(table, s, limit) is Ok,
        0 <= k <= s.len(),
    ensures
        ({
            let (field, rest) = literal_of(table, s, limit)->Ok_0;
            &&& 0 < m <= s.len()
            &&& rest == s.skip(m)
            &&& k >= m ==> literal_of(table, s.take(k), limit) == Ok::<
                (FieldView, Seq<u8>),
                DecoderError,
            >((field, s.take(k).skip(m)))
            &&& k < m ==> (literal_of(table, s.take(k), limit) matches Err(
                DecoderError::NeedMore(_),
            ))
        }),
{
    let a = lemma_integer_prefix(s, k, limit);
    let (index, rest) = integer_of(s, limit)->Ok_0;
    let c = if k >= a {
        k - a
    } else {
        0
    };
    if k >= a {
        assert(s.take(k).skip(a) =~= rest.take(c));
    }
    if index == 0 {
        let b = lemma_string_prefix(rest, c);
        assert(rest.skip(b) =~= s.skip(a + b));
        let e = if c >= b {
            c - b
        } else {
            0
        };
        let tail = rest.skip(b);
        if c >= b {
            assert(rest.take(c).skip(b) =~= tail.take(e));
        }
        let v = lemma_string_prefix(tail, e);
        assert(tail.skip(v) =~= s.skip(a + b + v));
        if c >= b && e >= v {
            assert(tail.take(e).skip(v) =~= s.take(k).skip(a + b + v));
        }
        a + b + v
    } else {
        let v = lemma_string_prefix(rest, c);
        assert(rest.skip(v) =~= s.skip(a + v));
        if c >= v {
            assert(rest.take(c).skip(v) =~= s.take(k).skip(a + v));
        }
        a + v
    }
}

/// A representation that can be read: where it ends, and what becomes of it if the
/// bytes are cut.
pub proof fn lemma_step_prefix(d: DecoderView, s: Seq<u8>, k: int, can_resize: bool) -> (m: int)
    requires
        s.len() > 0,
        step_of(d, s, can_resize) is Ok,
        0 < k <= s.len(),
    ensures
        ({
            let step = step_of(d, s, can_resize)->Ok_0;
            &&& 0 < m <= s.len()
            &&& step.rest == s.skip(m)
            &&& k >= m ==> step_of(d, s.take(k), can_resize) == Ok::<StepView, DecoderError>(
                StepView { rest: s.take(k).skip(m), ..step },
            )
            &&& k < m ==> (step_of(d, s.take(k), can_resize) matches Err(
                DecoderError::NeedMore(_),
            ))
        }),
{
    reveal(step_of);
    assert(s.take(k)[0] == s[0]);
    if s[0] >= 128 {
        lemma_integer_prefix(s, k, 128)
    } else if s[0] >= 64 {
        lemma_literal_prefix(d.table, s, k, 64)
    } else if s[0] >= 32 {
        lemma_integer_prefix(s, k, 32)
    } else {
        lemma_literal_prefix(d.table, s, k, 16)
    }
}

/// Where a table size may stand, anything else may stand too.
pub proof fn lemma_step_resize(d: DecoderView, s: Seq<u8>)
    requires
        step_of(d, s, false) is Ok,
    ensures
        step_of(d, s, true) == step_of(d, s, false),
        step_of(d, s, false)->Ok_0.field is Some,
{
    reveal(step_of);
}

} // verus!
