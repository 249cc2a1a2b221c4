//! What holds of header blocks, whoever wrote them.

use crate::frame::block::{load_field, load_from, LoadView};
use crate::hpack::decoder::{literal_of, step_of, string_of, DecoderView, StepView};
use crate::hpack::error::{DecoderError, NeedMore};
use crate::hpack::field::{field_fault, pseudo_name_of, FieldView, PseudoName};
use crate::hpack::huffman::huffman_of;
use crate::hpack::integer::{integer_of, varint_of};
use crate::hpack::static_table::static_entry;
use crate::hpack::table::{entries_size, evicted, TableView};
use crate::hpack::encoder::{Encoder, SizeUpdate};
use crate::text::{is_header_name, is_header_value, is_method};
use vstd::prelude::*;
use vstd::utf8::valid_utf8;

verus! {

/// The octets that a run of entries counts for: those of the names and of the values, and
/// 32 more for each entry.
pub open spec fn octets(entries: Seq<FieldView>) -> nat
    decreases entries.len(),
{
    if entries.len() == 0 {
        0
    } else {
        entries[0].name.len() + entries[0].value.len() + 32 + octets(entries.skip(1))
    }
}

proof fn lemma_octets_push(entries: Seq<FieldView>, f: FieldView)
    ensures
        octets(entries.push(f)) == octets(entries) + f.name.len() + f.value.len() + 32,
    decreases entries.len(),
{
    let all = entries.push(f);
    if entries.len() == 0 {
        assert(all.skip(1) =~= Seq::<FieldView>::empty());
        assert(octets(all.skip(1)) == 0);
    } else {
        assert(all.skip(1) =~= entries.skip(1).push(f));
        lemma_octets_push(entries.skip(1), f);
    }
}

proof fn lemma_octets(entries: Seq<FieldView>)
    ensures
        octets(entries) == entries_size(entries),
    decreases entries.len(),
{
    if entries.len() > 0 {
        lemma_octets(entries.drop_last());
        lemma_octets_push(entries.drop_last(), entries.last());
        assert(entries.drop_last().push(entries.last()) =~= entries);
    }
}

/// The first entries of a run, as many as count for no more than `limit`.
pub open spec fn is_longest_start(kept: Seq<FieldView>, entries: Seq<FieldView>, limit: int) -> bool {
    &&& kept.len() <= entries.len()
    &&& kept == entries.take(kept.len() as int)
    &&& kept.len() > 0 ==> octets(kept) <= limit
    &&& kept.len() < entries.len() ==> octets(entries.take(kept.len() as int + 1)) > limit
}

proof fn lemma_evicted(entries: Seq<FieldView>, limit: int)
    ensures
        is_longest_start(evicted(entries, limit), entries, limit),
    decreases entries.len(),
{
    lemma_octets(entries);
    if entries.len() == 0 || entries_size(entries) <= limit {
        assert(entries.take(entries.len() as int) =~= entries);
    } else {
        let init = entries.drop_last();
        lemma_evicted(init, limit);
        let kept = evicted(init, limit);
        assert(init.take(kept.len() as int) =~= entries.take(kept.len() as int));
        if kept.len() == init.len() {
            assert(entries.take(kept.len() as int + 1) =~= entries);
        } else {
            assert(init.take(kept.len() as int + 1) =~= entries.take(kept.len() as int + 1));
        }
    }
}

/// A field that goes into the table is its newest entry, and the oldest ones leave to make
/// room, no more of them than have to: behind the new entry stand the newest of the old
/// ones, as many as there is room for. A field that is larger than the whole table is not
/// kept, and leaves the table empty.
pub proof fn law_insertion_evicts_the_oldest(t: TableView, f: FieldView)
    ensures
        ({
            let after = t.inserted(f);
            let size = f.name.len() + f.value.len() + 32;
            &&& after.max_size == t.max_size
            &&& size > t.max_size ==> after.entries.len() == 0
            &&& size <= t.max_size ==> {
                &&& after.entries.len() > 0
                &&& after.entries[0] == f
                &&& is_longest_start(after.entries.skip(1), t.entries, t.max_size - size)
            }
        }),
{
    let limit = t.max_size - f.size();
    let kept = evicted(t.entries, limit);
    lemma_evicted(t.entries, limit);
    let after = t.inserted(f);
    if f.size() <= t.max_size {
        assert(after.entries.skip(1) =~= kept);
    } else {
        assert(kept.len() == 0) by {
            if kept.len() > 0 {
                assert(octets(kept) <= limit);
            }
        }
    }
}

/// A table that gets another size keeps its newest entries, as many as there is room for.
pub proof fn law_resizing_evicts_the_oldest(t: TableView, size: int)
    ensures
        t.resized(size).max_size == size,
        is_longest_start(t.resized(size).entries, t.entries, size),
{
    lemma_evicted(t.entries, size);
}

/// The static table has the indices from 1 to 61, and the entries of the dynamic table
/// have those behind, the newest first. There is nothing at any other index.
pub proof fn law_indices(t: TableView, index: int)
    ensures
        1 <= index <= 61 ==> t.get(index) == Ok::<FieldView, DecoderError>(
            static_entry(index as usize),
        ),
        62 <= index < 62 + t.entries.len() ==> t.get(index) == Ok::<FieldView, DecoderError>(
            t.entries[index - 62],
        ),
        index < 1 || index >= 62 + t.entries.len() ==> t.get(index) == Err::<
            FieldView,
            DecoderError,
        >(DecoderError::InvalidTableIndex),
{
}

proof fn lemma_indexed_step(d: DecoderView, s: Seq<u8>, can_resize: bool)
    requires
        s.len() > 0,
        128 <= s[0] < 255,
    ensures
        step_of(d, s, can_resize) == match d.table.get(s[0] - 128) {
            Ok(field) => Ok::<StepView, DecoderError>(
                StepView { field: Some(field), table: d.table, rest: s.skip(1) },
            ),
            Err(e) => Err(e),
        },
{
    reveal(step_of);
    assert(s[0] as int % 128 == s[0] - 128);
}

proof fn lemma_literal_step(d: DecoderView, s: Seq<u8>, can_resize: bool)
    requires
        s.len() > 0,
        s[0] < 32,
    ensures
        step_of(d, s, can_resize) == match literal_of(d.table, s, 16) {
            Ok((field, rest)) => Ok::<StepView, DecoderError>(
                StepView { field: Some(field), table: d.table, rest },
            ),
            Err(e) => Err(e),
        },
{
    reveal(step_of);
}

proof fn lemma_indexing_step(d: DecoderView, s: Seq<u8>, can_resize: bool)
    requires
        s.len() > 0,
        64 <= s[0] < 128,
    ensures
        step_of(d, s, can_resize) == match literal_of(d.table, s, 64) {
            Ok((field, rest)) => Ok::<StepView, DecoderError>(
                StepView { field: Some(field), table: d.table.inserted(field), rest },
            ),
            Err(e) => Err(e),
        },
{
    reveal(step_of);
}

/// Only a literal with incremental indexing puts a field into the table, and only a size
/// update changes the size of the table. An indexed field and a literal that is not
/// indexed, or never, leave the table as it is. All but a size update give a field.
pub proof fn law_only_indexing_changes_the_table(d: DecoderView, s: Seq<u8>, can_resize: bool)
    requires
        s.len() > 0,
    ensures
        step_of(d, s, can_resize) matches Ok(step) ==> {
            &&& s[0] < 32 || s[0] >= 128 ==> step.table == d.table && step.field is Some
            &&& 64 <= s[0] < 128 ==> step.field is Some && step.table == d.table.inserted(
                step.field->0,
            )
            &&& 32 <= s[0] < 64 ==> {
                &&& can_resize
                &&& step.field is None
                &&& step.table == d.table.resized(step.table.max_size)
                &&& step.table.max_size <= d.allowed
            }
        },
        32 <= s[0] < 64 && !can_resize ==> step_of(d, s, can_resize) is Err,
{
    reveal(step_of);
}

/// A size update gives the table the size that stands in it.
pub proof fn law_size_update(d: DecoderView, s: Seq<u8>)
    requires
        s.len() > 0,
        32 <= s[0] < 63,
        s[0] - 32 <= d.allowed,
    ensures
        step_of(d, s, true) matches Ok(step) && step.table.max_size == s[0] - 32 && step.rest
            == s.skip(1),
{
    reveal(step_of);
}

/// A literal that is never indexed reads as one that is not indexed: whether it is has no
/// bearing on what is read.
pub proof fn law_never_indexed_reads_alike(d: DecoderView, s: Seq<u8>, can_resize: bool)
    requires
        s.len() > 0,
        s[0] < 16,
    ensures
        step_of(d, s.update(0, (s[0] + 16) as u8), can_resize) == step_of(d, s, can_resize),
{
    let t = s.update(0, (s[0] + 16) as u8);
    lemma_literal_step(d, s, can_resize);
    lemma_literal_step(d, t, can_resize);
    assert(t.skip(1) =~= s.skip(1));
    assert(t[0] as int % 16 == s[0] as int % 16);
    assert(integer_of(t, 16) == integer_of(s, 16));
}

/// A literal that is indexed reads as one that is not, as far as the field and what stands
/// behind it go.
pub proof fn law_indexed_literal_reads_alike(d: DecoderView, s: Seq<u8>, can_resize: bool)
    requires
        s.len() > 0,
        s[0] < 15,
    ensures
        ({
            let indexed = step_of(d, s.update(0, (s[0] + 64) as u8), can_resize);
            match step_of(d, s, can_resize) {
                Ok(step) => indexed matches Ok(other) && other.field == step.field && other.rest
                    == step.rest,
                Err(e) => indexed == Err::<StepView, DecoderError>(e),
            }
        }),
{
    let t = s.update(0, (s[0] + 64) as u8);
    lemma_literals_alike(d.table, s, t);
    lemma_literal_step(d, s, can_resize);
    lemma_indexing_step(d, t, can_resize);
}

proof fn lemma_literals_alike(table: TableView, s: Seq<u8>, t: Seq<u8>)
    requires
        s.len() > 0,
        s[0] < 15,
        t == s.update(0, (s[0] + 64) as u8),
    ensures
        literal_of(table, t, 64) == literal_of(table, s, 16),
{
    assert(t.skip(1) =~= s.skip(1));
    assert(t[0] as int % 64 == s[0]);
    assert(s[0] as int % 16 == s[0]);
    assert(integer_of(t, 64) == integer_of(s, 16));
}

/// A string that is not coded is as long as the number in front of it says, and is the
/// bytes that follow.
pub proof fn law_plain_string(s: Seq<u8>, text: Seq<u8>, rest: Seq<u8>)
    requires
        text.len() < 127,
        s == seq![text.len() as u8] + text + rest,
    ensures
        string_of(s) == Ok::<(Seq<u8>, Seq<u8>), DecoderError>((text, rest)),
{
    assert(s.skip(1) =~= text + rest);
    assert((text + rest).take(text.len() as int) =~= text);
    assert((text + rest).skip(text.len() as int) =~= rest);
}

/// A string that is coded is the text that its bytes are the Huffman code of.
pub proof fn law_coded_string(s: Seq<u8>, code: Seq<u8>, rest: Seq<u8>)
    requires
        code.len() < 127,
        s == seq![(128 + code.len()) as u8] + code + rest,
    ensures
        huffman_of(code) matches Some(text) ==> string_of(s) == Ok::<
            (Seq<u8>, Seq<u8>),
            DecoderError,
        >((text, rest)),
        huffman_of(code) is None ==> string_of(s) is Err,
{
    assert(s.skip(1) =~= code + rest);
    assert((code + rest).take(code.len() as int) =~= code);
    assert((code + rest).skip(code.len() as int) =~= rest);
}

/// An index in one byte stands for the field at that place, whatever comes behind it.
pub proof fn law_indexed_field(d: DecoderView, s: Seq<u8>, can_resize: bool)
    requires
        s.len() > 0,
        128 <= s[0] < 255,
    ensures
        ({
            let index = s[0] - 128;
            match step_of(d, s, can_resize) {
                Ok(step) => {
                    &&& 1 <= index < 62 + d.table.entries.len()
                    &&& step.rest == s.skip(1)
                    &&& step.field == Some(
                        if index <= 61 {
                            static_entry(index as usize)
                        } else {
                            d.table.entries[index - 62]
                        },
                    )
                },
                Err(_) => index == 0 || index >= 62 + d.table.entries.len(),
            }
        }),
{
    lemma_indexed_step(d, s, can_resize);
}

/// A literal with an index in its first byte has the name of the field at that place, and
/// the string behind the byte as its value.
#[verifier::rlimit(40)]
pub proof fn law_literal_with_indexed_name(d: DecoderView, s: Seq<u8>, can_resize: bool)
    requires
        s.len() > 0,
        0 < s[0] < 15 || 16 < s[0] < 31 || 64 < s[0] < 127,
    ensures
        step_of(d, s, can_resize) matches Ok(step) ==> {
            let index = if s[0] >= 64 {
                s[0] - 64
            } else {
                s[0] as int % 16
            };
            &&& d.table.get(index) matches Ok(entry) && step.field->0.name == entry.name
            &&& string_of(s.skip(1)) == Ok::<(Seq<u8>, Seq<u8>), DecoderError>(
                (step.field->0.value, step.rest),
            )
        },
{
    if s[0] < 32 {
        lemma_literal_step(d, s, can_resize);
    } else {
        lemma_indexing_step(d, s, can_resize);
    }
}

/// A literal without an index has the two strings behind its first byte as its name and
/// its value.
pub proof fn law_literal_with_new_name(d: DecoderView, s: Seq<u8>, can_resize: bool)
    requires
        s.len() > 0,
        s[0] == 0 || s[0] == 16 || s[0] == 64,
    ensures
        step_of(d, s, can_resize) matches Ok(step) ==> {
            &&& string_of(s.skip(1)) matches Ok((name, rest)) && name == step.field->0.name
                && string_of(rest) == Ok::<(Seq<u8>, Seq<u8>), DecoderError>(
                (step.field->0.value, step.rest),
            )
        },
{
    if s[0] < 32 {
        lemma_literal_step(d, s, can_resize);
    } else {
        lemma_indexing_step(d, s, can_resize);
    }
}

/// The table stays in step whatever becomes of the fields: it depends on the bytes alone,
/// not on what was read before them or on how much of a list is kept, as long as the list
/// is not refused altogether.
pub proof fn law_table_depends_on_bytes_alone(
    d: DecoderView,
    s: Seq<u8>,
    can_resize: bool,
    a: LoadView,
    b: LoadView,
    max: usize,
    other: usize,
)
    requires
        load_from(d, s, can_resize, a, max).fault is None,
        load_from(d, s, can_resize, b, other).fault is None,
    ensures
        load_from(d, s, can_resize, a, max).decoder == load_from(
            d,
            s,
            can_resize,
            b,
            other,
        ).decoder,
    decreases s.len(),
{
    if s.len() > 0 {
        if let Ok(step) = step_of(d, s, can_resize) {
            crate::hpack::decoder::lemma_step_shrinks(d, s, can_resize);
            let after = DecoderView { table: step.table, ..d };
            let (x, y) = match step.field {
                Some(f) => (load_field(a, f, max), load_field(b, f, other)),
                None => (a, b),
            };
            law_table_depends_on_bytes_alone(
                after,
                step.rest,
                can_resize && step.field is None,
                x,
                y,
                max,
                other,
            );
        }
    }
}

/// The smallest table size that the peer is told of with the next block.
pub open spec fn smallest(e: Encoder) -> usize {
    match e.size_update {
        None => e.max_size,
        Some(SizeUpdate::One(n)) => n,
        Some(SizeUpdate::Two(a, b)) => if a < b {
            a
        } else {
            b
        },
    }
}

/// The table size that the peer allowed last is the one that counts once it was told of, and
/// nothing is left to be told then. If a smaller one was allowed in between, the peer is told
/// of that too, so that it drops what has to go.
pub proof fn law_allowed_sizes_are_told(e: Encoder, n: usize)
    requires
        e.size_update matches Some(SizeUpdate::Two(a, b)) ==> a <= b,
    ensures
        e.allowed(n).size_update matches Some(SizeUpdate::Two(a, b)) ==> a <= b,
        e.allowed(n).told().max_size == n,
        e.allowed(n).told().size_update is None,
        smallest(e.allowed(n)) <= n,
        smallest(e) < e.max_size ==> smallest(e.allowed(n)) <= smallest(e),
        e.size_update is None && n == e.max_size ==> e.allowed(n).size_update is None,
{
}

/// An integer stands in its prefix if it is smaller than the largest number there. Else the
/// bytes that follow hold the rest, seven bits each and the lowest first, up to one below
/// 128; there are at most four of them.
pub proof fn law_integers(s: Seq<u8>, limit: int)
    requires
        s.len() > 5,
        limit > 1,
    ensures
        ({
            let top = limit - 1;
            let n = integer_of(s, limit);
            let a = s[1] as int % 128;
            let b = s[2] as int % 128;
            let c = s[3] as int % 128;
            let d = s[4] as int % 128;
            if s[0] as int % limit != top {
                n == Ok::<(int, Seq<u8>), DecoderError>((s[0] as int % limit, s.skip(1)))
            } else if s[1] < 128 {
                n == Ok::<(int, Seq<u8>), DecoderError>((top + a, s.skip(2)))
            } else if s[2] < 128 {
                n == Ok::<(int, Seq<u8>), DecoderError>((top + a + 128 * b, s.skip(3)))
            } else if s[3] < 128 {
                n == Ok::<(int, Seq<u8>), DecoderError>((top + a + 128 * b + 16_384 * c, s.skip(4)))
            } else if s[4] < 128 {
                n == Ok::<(int, Seq<u8>), DecoderError>(
                    (top + a + 128 * b + 16_384 * c + 2_097_152 * d, s.skip(5)),
                )
            } else {
                n == Err::<(int, Seq<u8>), DecoderError>(DecoderError::IntegerOverflow)
            }
        }),
{
    let top = limit - 1;
    let a = s[1] as int % 128;
    let b = s[2] as int % 128;
    let c = s[3] as int % 128;
    let d = s[4] as int % 128;
    assert(s.skip(1).skip(1) =~= s.skip(2));
    assert(s.skip(2).skip(1) =~= s.skip(3));
    assert(s.skip(3).skip(1) =~= s.skip(4));
    assert(s.skip(4).skip(1) =~= s.skip(5));
    assert(a * 1 == a) by (nonlinear_arith);
    assert(b * 128 == 128 * b && c * 16_384 == 16_384 * c && d * 2_097_152 == 2_097_152 * d)
        by (nonlinear_arith);
    lemma_varint_step(s.skip(1), top, 1, 128, 1);
    lemma_varint_step(s.skip(2), top + a, 128, 16_384, 2);
    lemma_varint_step(s.skip(3), top + a + 128 * b, 16_384, 2_097_152, 3);
    lemma_varint_step(s.skip(4), top + a + 128 * b + 16_384 * c, 2_097_152, 268_435_456, 4);
}

proof fn lemma_varint_step(s: Seq<u8>, value: int, weight: int, next: int, count: int)
    requires
        s.len() > 0,
        weight * 128 == next,
    ensures
        ({
            let v = value + (s[0] as int % 128) * weight;
            varint_of(s, value, weight, count) == if s[0] < 128 {
                Ok::<(int, Seq<u8>), DecoderError>((v, s.skip(1)))
            } else if count + 1 == 5 {
                Err(DecoderError::IntegerOverflow)
            } else {
                varint_of(s.skip(1), v, next, count + 1)
            }
        }),
{
}

/// An integer that is cut short is waited for.
pub proof fn law_integers_cut_short(s: Seq<u8>, limit: int)
    requires
        s.len() <= 4,
        s.len() > 0 ==> s[0] as int % limit == limit - 1,
        limit > 1,
        forall|k: int| 1 <= k < s.len() ==> #[trigger] s[k] >= 128,
    ensures
        integer_of(s, limit) == Err::<(int, Seq<u8>), DecoderError>(
            DecoderError::NeedMore(NeedMore::IntegerUnderflow),
        ),
{
    reveal_with_fuel(varint_of, 5);
    assert(s.len() > 1 ==> s.skip(1)[0] == s[1]);
    assert(s.len() > 2 ==> s.skip(1).skip(1)[0] == s[2]);
    assert(s.len() > 3 ==> s.skip(1).skip(1).skip(1)[0] == s[3]);
}

/// A string is as long as the integer in front of it says, however long that is: its bytes
/// are the text, or the code of the text where the highest bit is set. What it lacks is
/// waited for.
pub proof fn law_strings(s: Seq<u8>, n: int, rest: Seq<u8>)
    requires
        s.len() > 0,
        integer_of(s, 128) == Ok::<(int, Seq<u8>), DecoderError>((n, rest)),
        0 <= n,
    ensures
        ({
            let held = rest.take(n);
            if n > rest.len() {
                string_of(s) == Err::<(Seq<u8>, Seq<u8>), DecoderError>(
                    DecoderError::NeedMore(NeedMore::StringUnderflow),
                )
            } else if s[0] < 128 {
                string_of(s) == Ok::<(Seq<u8>, Seq<u8>), DecoderError>((held, rest.skip(n)))
            } else {
                &&& huffman_of(held) matches Some(text) ==> string_of(s) == Ok::<
                    (Seq<u8>, Seq<u8>),
                    DecoderError,
                >((text, rest.skip(n)))
                &&& huffman_of(held) is None ==> string_of(s) == Err::<
                    (Seq<u8>, Seq<u8>),
                    DecoderError,
                >(DecoderError::InvalidHuffmanCode)
            }
        }),
{
}

/// An index stands for the field at its place, however many bytes it takes: the static table
/// comes first, the entries of the dynamic table follow, and there is no other.
pub proof fn law_any_index(
    d: DecoderView,
    s: Seq<u8>,
    can_resize: bool,
    index: int,
    rest: Seq<u8>,
)
    requires
        s.len() > 0,
        s[0] >= 128,
        integer_of(s, 128) == Ok::<(int, Seq<u8>), DecoderError>((index, rest)),
    ensures
        ({
            let known = 1 <= index < 62 + d.table.entries.len();
            &&& !known ==> step_of(d, s, can_resize) == Err::<StepView, DecoderError>(
                DecoderError::InvalidTableIndex,
            )
            &&& known ==> (step_of(d, s, can_resize) matches Ok(step) && step.rest == rest
                && step.table == d.table && step.field == Some(
                if index <= 61 {
                    static_entry(index as usize)
                } else {
                    d.table.entries[index - 62]
                },
            ))
        }),
{
    reveal(step_of);
}

/// A literal is made of a name and a value: the name is the string behind the first byte, or
/// that of the field at the index, however many bytes that takes, and the value is the string
/// behind it. A field that there cannot be is refused.
pub proof fn law_any_literal(
    d: DecoderView,
    s: Seq<u8>,
    can_resize: bool,
    index: int,
    name: Seq<u8>,
    behind_index: Seq<u8>,
    behind_name: Seq<u8>,
)
    requires
        s.len() > 0,
        s[0] < 32 || 64 <= s[0] < 128,
        integer_of(
            s,
            if s[0] < 32 {
                16
            } else {
                64
            },
        ) == Ok::<(int, Seq<u8>), DecoderError>((index, behind_index)),
        if index == 0 {
            string_of(behind_index) == Ok::<(Seq<u8>, Seq<u8>), DecoderError>((name, behind_name))
        } else {
            &&& d.table.get(index) matches Ok(entry) && entry.name == name
            &&& behind_name == behind_index
        },
    ensures
        match string_of(behind_name) {
            Err(e) => step_of(d, s, can_resize) == Err::<StepView, DecoderError>(e),
            Ok((value, rest)) => {
                let f = FieldView { name, value };
                match field_fault(f) {
                    Some(e) => step_of(d, s, can_resize) == Err::<StepView, DecoderError>(e),
                    None => (step_of(d, s, can_resize) matches Ok(step) && step.rest == rest
                        && step.field == Some(f)),
                }
            },
        },
{
    if s[0] < 32 {
        lemma_literal_step(d, s, can_resize);
    } else {
        lemma_indexing_step(d, s, can_resize);
    }
}

/// A size update gives the table the size that stands in it, however many bytes that takes,
/// if it is allowed there and is not larger than what was allowed.
pub proof fn law_any_size_update(
    d: DecoderView,
    s: Seq<u8>,
    can_resize: bool,
    size: int,
    rest: Seq<u8>,
)
    requires
        s.len() > 0,
        32 <= s[0] < 64,
        integer_of(s, 32) == Ok::<(int, Seq<u8>), DecoderError>((size, rest)),
    ensures
        ({
            let ok = can_resize && size <= d.allowed;
            &&& !ok ==> step_of(d, s, can_resize) == Err::<StepView, DecoderError>(
                DecoderError::InvalidMaxDynamicSize,
            )
            &&& ok ==> (step_of(d, s, can_resize) matches Ok(step) && step.rest == rest
                && step.field is None && step.table.max_size == size)
        }),
{
    reveal(step_of);
}

/// The fields that there can be: a header with a name and a value of its kind, or one of the
/// pseudo-headers, of which `:method` has a method, `:status` three digits, the first of them
/// not zero, and every other a text.
pub proof fn law_fields_there_can_be(f: FieldView)
    ensures
        f.name.len() == 0 ==> field_fault(f) is Some,
        f.name.len() > 0 && f.name[0] != 58 ==> (field_fault(f) is None <==> is_header_name(f.name)
            && forall|i: int|
            0 <= i < f.value.len() ==> {
                let b = #[trigger] f.value[i];
                b == 9 || 32 <= b <= 126 || b >= 128
            }),
        f.name.len() > 0 && f.name[0] == 58 ==> match pseudo_name_of(f.name) {
            None => field_fault(f) == Some(DecoderError::InvalidPseudoheader),
            Some(PseudoName::Method) => field_fault(f) is None <==> is_method(f.value),
            Some(PseudoName::Status) => field_fault(f) is None <==> f.value.len() == 3 && 49
                <= f.value[0] <= 57 && 48 <= f.value[1] <= 57 && 48 <= f.value[2] <= 57,
            Some(_) => field_fault(f) is None <==> valid_utf8(f.value),
        },
{
    assert(is_header_value(f.value) <==> forall|i: int|
        0 <= i < f.value.len() ==> {
            let b = #[trigger] f.value[i];
            b == 9 || 32 <= b <= 126 || b >= 128
        });
}

} // verus!
