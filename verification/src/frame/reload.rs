//! Header blocks that were written are read back as they were, in one piece or in
//! many.

use crate::frame::block::{
    abuse_limit, is_connection_header, list_size, load_block, load_field, load_from, no_pseudo,
    opt_field, status_bytes, BlockView, LoadView, PseudoView,
};
use crate::frame::error::Error;
use crate::frame::headers::no_block;
use crate::hpack::decoder::DecoderView;
use crate::hpack::encoder::{
    field_bytes, fields_bytes, lemma_field_cut, lemma_field_round_trip, lemma_update_round_trip,
    updates_bytes, SizeUpdate,
};
use crate::hpack::error::DecoderError;
use crate::hpack::field::{field_fault, pseudo_name_of, FieldView, PseudoName};
use crate::hpack::integer::{integer_bytes, lemma_integer_round_trip};
use crate::names::{
    AUTHORITY, METHOD, PATH, PROTOCOL, SCHEME, STATUS, TE, TRAILERS,
};
use crate::proto::send::fields_ok;
use crate::text::{is_method, is_name_byte, status_of};
use vstd::prelude::*;
use vstd::utf8::valid_utf8;

verus! {

/// A field that a decoder accepts and that is not too long to be written.
pub open spec fn is_writable(f: FieldView) -> bool {
    &&& field_fault(f) is None
    &&& f.name.len() < 0x1000_0000
    &&& f.value.len() < 0x1000_0000
}

/// Every field of a run can be written.
pub open spec fn all_writable(fields: Seq<FieldView>) -> bool {
    forall|i: int| 0 <= i < fields.len() ==> is_writable(#[trigger] fields[i])
}

/// The state after a run of fields.
pub open spec fn load_all(st: LoadView, fields: Seq<FieldView>, max: usize) -> LoadView
    decreases fields.len(),
{
    if fields.len() == 0 {
        st
    } else {
        load_all(load_field(st, fields[0], max), fields.skip(1), max)
    }
}

/// The state that reading a block goes on from.
pub open spec fn state_of(block: BlockView) -> LoadView {
    LoadView {
        block,
        regular: block.fields.len() > 0,
        malformed: false,
        size: list_size(block.all()),
    }
}

/// A field that is in its place and is kept.
pub open spec fn is_clean(st: LoadView, f: FieldView, max: usize) -> bool {
    &&& st.size + f.size() < max
    &&& match pseudo_name_of(f.name) {
        Some(name) => !st.regular && !st.block.pseudo.has(name) && (name == PseudoName::Status
            ==> status_of(f.value) is Some),
        None => !is_connection_header(f.name) && (f.name == TE@ ==> f.value == TRAILERS@),
    }
}

/// Every field of a run is in its place and is kept.
pub open spec fn clean_run(st: LoadView, fields: Seq<FieldView>, max: usize) -> bool
    decreases fields.len(),
{
    fields.len() == 0 || is_clean(st, fields[0], max) && clean_run(
        load_field(st, fields[0], max),
        fields.skip(1),
        max,
    )
}

proof fn lemma_list_size_concat(a: Seq<FieldView>, b: Seq<FieldView>)
    ensures
        list_size(a + b) == list_size(a) + list_size(b),
    decreases b.len(),
{
    if b.len() == 0 {
        assert(a + b =~= a);
    } else {
        assert((a + b).drop_last() =~= a + b.drop_last());
        assert((a + b).last() == b.last());
        lemma_list_size_concat(a, b.drop_last());
    }
}

spec fn opt_size(name: Seq<u8>, value: Option<Seq<u8>>) -> nat {
    match value {
        Some(v) => name.len() + v.len() + 32,
        None => 0,
    }
}

proof fn lemma_opt_size(name: Seq<u8>, value: Option<Seq<u8>>)
    ensures
        list_size(opt_field(name, value)) == opt_size(name, value),
{
    reveal(opt_field);
    let s = opt_field(name, value);
    if s.len() > 0 {
        assert(s.drop_last() =~= Seq::<FieldView>::empty());
        assert(list_size(Seq::<FieldView>::empty()) == 0);
    }
}

spec fn status_text(status: Option<u16>) -> Option<Seq<u8>> {
    match status {
        Some(status) => Some(status_bytes(status)),
        None => None,
    }
}

proof fn lemma_pseudo_size(p: PseudoView)
    ensures
        list_size(p.fields()) == opt_size(METHOD@, p.method) + opt_size(SCHEME@, p.scheme)
            + opt_size(AUTHORITY@, p.authority) + opt_size(PATH@, p.path) + opt_size(
            PROTOCOL@,
            p.protocol,
        ) + opt_size(STATUS@, status_text(p.status)),
{
    reveal(PseudoView::fields);
    let f6 = opt_field(STATUS@, status_text(p.status));
    let f5 = opt_field(PROTOCOL@, p.protocol);
    let f4 = opt_field(PATH@, p.path);
    let f3 = opt_field(AUTHORITY@, p.authority);
    let f2 = opt_field(SCHEME@, p.scheme);
    let f1 = opt_field(METHOD@, p.method);
    assert(p.fields() == f1 + (f2 + (f3 + (f4 + (f5 + f6)))));
    lemma_list_size_concat(f5, f6);
    lemma_list_size_concat(f4, f5 + f6);
    lemma_list_size_concat(f3, f4 + (f5 + f6));
    lemma_list_size_concat(f2, f3 + (f4 + (f5 + f6)));
    lemma_list_size_concat(f1, f2 + (f3 + (f4 + (f5 + f6))));
    lemma_opt_size(METHOD@, p.method);
    lemma_opt_size(SCHEME@, p.scheme);
    lemma_opt_size(AUTHORITY@, p.authority);
    lemma_opt_size(PATH@, p.path);
    lemma_opt_size(PROTOCOL@, p.protocol);
    lemma_opt_size(STATUS@, status_text(p.status));
}

proof fn lemma_block_size(b: BlockView)
    ensures
        list_size(b.all()) == list_size(b.pseudo.fields()) + list_size(b.fields),
{
    lemma_list_size_concat(b.pseudo.fields(), b.fields);
}

/// The text of a pseudo-header's name.
pub open spec fn name_text(name: PseudoName) -> Seq<u8> {
    match name {
        PseudoName::Method => METHOD@,
        PseudoName::Scheme => SCHEME@,
        PseudoName::Authority => AUTHORITY@,
        PseudoName::Path => PATH@,
        PseudoName::Protocol => PROTOCOL@,
        PseudoName::Status => STATUS@,
    }
}

#[verifier::rlimit(30)]
proof fn lemma_with_size(p: PseudoView, name: PseudoName, value: Seq<u8>)
    requires
        !p.has(name),
        name == PseudoName::Status ==> status_of(value) is Some,
    ensures
        list_size(p.with(name, value).fields()) == list_size(p.fields()) + name_text(name).len()
            + value.len() + 32,
{
    lemma_pseudo_size(p);
    lemma_pseudo_size(p.with(name, value));
}

pub(crate) proof fn lemma_clean_step(block: BlockView, f: FieldView, max: usize)
    requires
        is_clean(state_of(block), f, max),
    ensures
        load_field(state_of(block), f, max) == state_of(
            load_field(state_of(block), f, max).block,
        ),
        load_field(state_of(block), f, max).size < max,
{
    let next = load_field(state_of(block), f, max);
    lemma_block_size(block);
    lemma_block_size(next.block);
    match pseudo_name_of(f.name) {
        Some(name) => {
            assert(f.name == name_text(name));
            lemma_with_size(block.pseudo, name, f.value);
        },
        None => {
            let fields = next.block.fields;
            assert(fields.drop_last() =~= block.fields);
            assert(fields.last() == f);
        },
    }
}

proof fn lemma_prefix(block: BlockView, fields: Seq<FieldView>, n: int, max: usize)
    requires
        clean_run(state_of(block), fields, max),
        0 <= n <= fields.len(),
    ensures
        ({
            let mid = load_all(state_of(block), fields.take(n), max);
            &&& mid == state_of(mid.block)
            &&& clean_run(mid, fields.skip(n), max)
            &&& load_all(mid, fields.skip(n), max) == load_all(state_of(block), fields, max)
        }),
    decreases n,
{
    if n == 0 {
        assert(fields.skip(0) =~= fields);
        assert(fields.take(0).len() == 0);
    } else {
        lemma_clean_step(block, fields[0], max);
        let next = load_field(state_of(block), fields[0], max);
        lemma_prefix(next.block, fields.skip(1), n - 1, max);
        assert(fields.take(n).skip(1) =~= fields.skip(1).take(n - 1));
        assert(fields.take(n)[0] == fields[0]);
        assert(fields.skip(1).skip(n - 1) =~= fields.skip(n));
    }
}

pub(crate) proof fn lemma_within_abuse_limit(size: nat, max: usize)
    requires
        size < max,
    ensures
        size <= abuse_limit(max),
{
}

proof fn lemma_load_step(
    d: DecoderView,
    block: BlockView,
    f: FieldView,
    rest: Seq<u8>,
    can_resize: bool,
    max: usize,
)
    requires
        is_writable(f),
        is_clean(state_of(block), f, max),
    ensures
        load_from(d, field_bytes(f) + rest, can_resize, state_of(block), max) == load_from(
            d,
            rest,
            false,
            load_field(state_of(block), f, max),
            max,
        ),
{
    lemma_field_round_trip(d, f, rest, can_resize);
    lemma_clean_step(block, f, max);
    lemma_within_abuse_limit(load_field(state_of(block), f, max).size, max);
    assert(DecoderView { table: d.table, ..d } == d);
}

proof fn lemma_load_cut(
    d: DecoderView,
    st: LoadView,
    f: FieldView,
    k: int,
    can_resize: bool,
    max: usize,
)
    requires
        is_writable(f),
        0 < k < field_bytes(f).len(),
    ensures
        ({
            let bytes = field_bytes(f).take(k);
            let end = load_from(d, bytes, can_resize, st, max);
            &&& end.decoder == d
            &&& end.rest == bytes
            &&& end.state == st
            &&& end.fault matches Some(Error::Hpack(DecoderError::NeedMore(_)))
        }),
{
    lemma_field_cut(d, f, k, can_resize);
}

/// How reading the first `k` bytes of a run of fields ends: some of the fields
/// were read, the rest of the bytes is left, and if there is any, more is asked
/// for.
proof fn lemma_load_part(
    d: DecoderView,
    block: BlockView,
    fields: Seq<FieldView>,
    k: int,
    can_resize: bool,
    max: usize,
) -> (n: int)
    requires
        all_writable(fields),
        clean_run(state_of(block), fields, max),
        0 <= k <= fields_bytes(fields).len(),
    ensures
        0 <= n <= fields.len(),
        ({
            let bytes = fields_bytes(fields).take(k);
            let end = load_from(d, bytes, can_resize, state_of(block), max);
            let left = fields_bytes(fields.skip(n));
            &&& end.decoder == d
            &&& end.rest.len() <= left.len()
            &&& end.rest == left.take(end.rest.len() as int)
            &&& k - end.rest.len() == fields_bytes(fields).len() - left.len()
            &&& end.state == load_all(state_of(block), fields.take(n), max)
            &&& end.rest.len() == 0 ==> end.fault is None
            &&& end.rest.len() > 0 ==> (end.fault matches Some(
                Error::Hpack(DecoderError::NeedMore(_)),
            ))
        }),
        k == fields_bytes(fields).len() ==> n == fields.len(),
    decreases fields.len(),
{
    let all = fields_bytes(fields);
    let bytes = all.take(k);
    let st = state_of(block);
    if k == 0 {
        assert(fields.skip(0) =~= fields);
        assert(fields.take(0).len() == 0);
        if all.len() == 0 && fields.len() > 0 {
            assert(field_bytes(fields[0]).len() > 0);
        }
        0
    } else {
        let f = fields[0];
        let one = field_bytes(f);
        let tail = fields_bytes(fields.skip(1));
        assert(is_writable(f));
        assert(all == one + tail);
        if k < one.len() {
            assert(bytes =~= one.take(k));
            lemma_load_cut(d, st, f, k, can_resize, max);
            assert(fields.skip(0) =~= fields);
            assert(fields.take(0).len() == 0);
            0
        } else {
            let rest = tail.take(k - one.len());
            assert(bytes =~= one + rest);
            lemma_load_step(d, block, f, rest, can_resize, max);
            lemma_clean_step(block, f, max);
            let next = load_field(st, f, max);
            assert(all_writable(fields.skip(1))) by {
                assert forall|i: int| 0 <= i < fields.skip(1).len() implies is_writable(
                    #[trigger] fields.skip(1)[i],
                ) by {
                    assert(is_writable(fields[i + 1]));
                }
            }
            let m = lemma_load_part(
                d,
                next.block,
                fields.skip(1),
                k - one.len(),
                false,
                max,
            );
            let n = m + 1;
            assert(fields.skip(1).skip(m) =~= fields.skip(n));
            assert(fields.take(n).skip(1) =~= fields.skip(1).take(m));
            assert(fields.take(n)[0] == f);
            n
        }
    }
}

proof fn lemma_run_concat(block: BlockView, a: Seq<FieldView>, b: Seq<FieldView>, max: usize)
    requires
        clean_run(state_of(block), a, max),
        clean_run(load_all(state_of(block), a, max), b, max),
    ensures
        clean_run(state_of(block), a + b, max),
        load_all(state_of(block), a + b, max) == load_all(
            load_all(state_of(block), a, max),
            b,
            max,
        ),
    decreases a.len(),
{
    if a.len() == 0 {
        assert(a + b =~= b);
    } else {
        lemma_clean_step(block, a[0], max);
        let next = load_field(state_of(block), a[0], max);
        lemma_run_concat(next.block, a.skip(1), b, max);
        assert((a + b).skip(1) =~= a.skip(1) + b);
        assert((a + b)[0] == a[0]);
    }
}

/// A text that a pseudo-header can have.
pub open spec fn pseudo_ok(name: PseudoName, value: Option<Seq<u8>>) -> bool {
    value matches Some(v) ==> is_writable(FieldView { name: name_text(name), value: v })
}

/// Pseudo-headers that are texts of their kinds.
pub open spec fn pseudo_valid(p: PseudoView) -> bool {
    &&& p.method matches Some(m) ==> is_method(m)
    &&& p.scheme matches Some(s) ==> valid_utf8(s)
    &&& p.authority matches Some(a) ==> valid_utf8(a)
    &&& p.path matches Some(t) ==> valid_utf8(t)
    &&& p.protocol matches Some(t) ==> valid_utf8(t)
    &&& p.status matches Some(n) ==> 100 <= n <= 999
}

proof fn lemma_one_size(fields: Seq<FieldView>, i: int)
    requires
        0 <= i < fields.len(),
    ensures
        fields[i].size() <= list_size(fields),
    decreases fields.len(),
{
    if i < fields.len() - 1 {
        lemma_one_size(fields.drop_last(), i);
        assert(fields.drop_last()[i] == fields[i]);
    }
}

proof fn lemma_pseudo_ok(name: PseudoName, value: Option<Seq<u8>>)
    requires
        name != PseudoName::Status,
        value matches Some(v) ==> v.len() < 0x1000_0000 && if name == PseudoName::Method {
            is_method(v)
        } else {
            valid_utf8(v)
        },
    ensures
        pseudo_ok(name, value),
{
    lemma_names(name);
}

/// A block of texts that are of their kinds, in a list that is not larger than what is
/// kept, is read back as it was written.
pub proof fn law_valid_blocks_arrive(b: BlockView, max: usize)
    requires
        !b.is_over_size,
        pseudo_valid(b.pseudo),
        fields_ok(b.fields),
        list_size(b.all()) < max,
        max <= 0x1000_0000,
    ensures
        block_arrives(b, max),
{
    lemma_block_size(b);
    lemma_pseudo_size(b.pseudo);
    lemma_pseudo_ok(PseudoName::Method, b.pseudo.method);
    lemma_pseudo_ok(PseudoName::Scheme, b.pseudo.scheme);
    lemma_pseudo_ok(PseudoName::Authority, b.pseudo.authority);
    lemma_pseudo_ok(PseudoName::Path, b.pseudo.path);
    lemma_pseudo_ok(PseudoName::Protocol, b.pseudo.protocol);
    assert forall|i: int| 0 <= i < b.fields.len() implies {
        let f = #[trigger] b.fields[i];
        &&& is_writable(f)
        &&& pseudo_name_of(f.name) is None
        &&& !is_connection_header(f.name)
        &&& f.name == TE@ ==> f.value == TRAILERS@
    } by {
        lemma_one_size(b.fields, i);
        let f = b.fields[i];
        assert(f.wf());
        assert(is_name_byte(f.name[0]));
    }
}

/// A header block that is read back as it was written: its texts are ones that a
/// decoder accepts, none of its fields is out of place, and the list is not
/// larger than what is kept.
pub open spec fn block_arrives(b: BlockView, max: usize) -> bool {
    &&& !b.is_over_size
    &&& pseudo_ok(PseudoName::Method, b.pseudo.method)
    &&& pseudo_ok(PseudoName::Scheme, b.pseudo.scheme)
    &&& pseudo_ok(PseudoName::Authority, b.pseudo.authority)
    &&& pseudo_ok(PseudoName::Path, b.pseudo.path)
    &&& pseudo_ok(PseudoName::Protocol, b.pseudo.protocol)
    &&& b.pseudo.status matches Some(n) ==> 100 <= n <= 999
    &&& all_writable(b.fields)
    &&& forall|i: int|
        0 <= i < b.fields.len() ==> {
            let f = #[trigger] b.fields[i];
            &&& pseudo_name_of(f.name) is None
            &&& !is_connection_header(f.name)
            &&& f.name == TE@ ==> f.value == TRAILERS@
        }
    &&& list_size(b.all()) < max
}

spec fn only_pseudo(pseudo: PseudoView) -> BlockView {
    BlockView { pseudo, fields: Seq::empty(), is_over_size: false }
}

proof fn lemma_only_pseudo_size(p: PseudoView)
    ensures
        list_size(only_pseudo(p).all()) == list_size(p.fields()),
{
    assert(only_pseudo(p).all() =~= p.fields());
}

proof fn lemma_opt_step(p: PseudoView, name: PseudoName, value: Option<Seq<u8>>, max: usize)
    requires
        !p.has(name),
        value matches Some(v) ==> name == PseudoName::Status ==> status_of(v) is Some,
        list_size(p.fields()) + opt_size(name_text(name), value) < max,
    ensures
        ({
            let run = opt_field(name_text(name), value);
            let st = state_of(only_pseudo(p));
            let after = match value {
                Some(v) => p.with(name, v),
                None => p,
            };
            &&& clean_run(st, run, max)
            &&& load_all(st, run, max) == state_of(only_pseudo(after))
            &&& list_size(after.fields()) == list_size(p.fields()) + opt_size(
                name_text(name),
                value,
            )
        }),
{
    reveal(opt_field);
    lemma_only_pseudo_size(p);
    let run = opt_field(name_text(name), value);
    if let Some(v) = value {
        let f = FieldView { name: name_text(name), value: v };
        let st = state_of(only_pseudo(p));
        assert(pseudo_name_of(f.name) == Some(name)) by {
            lemma_names(name);
        }
        assert(run[0] == f);
        assert(run.skip(1) =~= Seq::<FieldView>::empty());
        lemma_clean_step(only_pseudo(p), f, max);
        let next = load_field(st, f, max);
        assert(next.block =~= only_pseudo(p.with(name, v)));
        assert(clean_run(next, run.skip(1), max));
        assert(load_all(next, run.skip(1), max) == next);
        lemma_with_size(p, name, v);
    }
}

proof fn lemma_names(name: PseudoName)
    ensures
        pseudo_name_of(name_text(name)) == Some(name),
        name_text(name)[0] == 58,
        0 < name_text(name).len() < 64,
{
    assert(METHOD@.len() == 7 && SCHEME@.len() == 7 && AUTHORITY@.len() == 10 && PATH@.len() == 5
        && PROTOCOL@.len() == 9 && STATUS@.len() == 7);
    assert(METHOD@[1] == 109 && SCHEME@[1] == 115 && STATUS@[1] == 115 && SCHEME@[2] == 99
        && STATUS@[2] == 116);
}

proof fn lemma_status_text(n: u16)
    requires
        100 <= n <= 999,
    ensures
        status_of(status_bytes(n)) == Some(n),
        status_bytes(n).len() == 3,
{
}

proof fn lemma_fields_run(b: BlockView, k: int, max: usize)
    requires
        block_arrives(b, max),
        0 <= k <= b.fields.len(),
    ensures
        ({
            let st = state_of(BlockView { fields: b.fields.take(k), ..b });
            &&& clean_run(st, b.fields.skip(k), max)
            &&& load_all(st, b.fields.skip(k), max) == state_of(b)
        }),
    decreases b.fields.len() - k,
{
    let part = BlockView { fields: b.fields.take(k), ..b };
    if k == b.fields.len() {
        assert(b.fields.take(k) =~= b.fields);
        assert(part == b);
    } else {
        let f = b.fields[k];
        let rest = b.fields.skip(k);
        assert(rest[0] == f);
        assert(rest.skip(1) =~= b.fields.skip(k + 1));
        lemma_block_size(part);
        lemma_block_size(b);
        lemma_list_size_concat(b.fields.take(k), rest);
        assert(b.fields.take(k) + rest =~= b.fields);
        lemma_list_size_concat(seq![f], rest.skip(1));
        assert(seq![f] + rest.skip(1) =~= rest);
        assert(list_size(seq![f]) == f.size()) by {
            assert(seq![f].drop_last() =~= Seq::<FieldView>::empty());
            assert(list_size(Seq::<FieldView>::empty()) == 0);
        }
        assert(is_clean(state_of(part), f, max));
        lemma_clean_step(part, f, max);
        let next = load_field(state_of(part), f, max);
        assert(next.block.fields =~= b.fields.take(k + 1));
        lemma_fields_run(b, k + 1, max);
    }
}

#[verifier::rlimit(40)]
proof fn lemma_pseudo_run(p: PseudoView, max: usize)
    requires
        pseudo_ok(PseudoName::Method, p.method),
        pseudo_ok(PseudoName::Scheme, p.scheme),
        pseudo_ok(PseudoName::Authority, p.authority),
        pseudo_ok(PseudoName::Path, p.path),
        pseudo_ok(PseudoName::Protocol, p.protocol),
        p.status matches Some(n) ==> 100 <= n <= 999,
        list_size(p.fields()) < max,
    ensures
        clean_run(state_of(no_block()), p.fields(), max),
        load_all(state_of(no_block()), p.fields(), max) == state_of(only_pseudo(p)),
        all_writable(p.fields()),
{
    let p0 = no_pseudo();
    let p1 = PseudoView { method: p.method, ..p0 };
    let p2 = PseudoView { scheme: p.scheme, ..p1 };
    let p3 = PseudoView { authority: p.authority, ..p2 };
    let p4 = PseudoView { path: p.path, ..p3 };
    let p5 = PseudoView { protocol: p.protocol, ..p4 };
    let status = status_text(p.status);
    if let Some(n) = p.status {
        lemma_status_text(n);
    }
    lemma_pseudo_size(p);
    lemma_pseudo_size(p0);
    let f1 = opt_field(METHOD@, p.method);
    let f2 = opt_field(SCHEME@, p.scheme);
    let f3 = opt_field(AUTHORITY@, p.authority);
    let f4 = opt_field(PATH@, p.path);
    let f5 = opt_field(PROTOCOL@, p.protocol);
    let f6 = opt_field(STATUS@, status);
    lemma_opt_step(p0, PseudoName::Method, p.method, max);
    lemma_opt_step(p1, PseudoName::Scheme, p.scheme, max);
    lemma_opt_step(p2, PseudoName::Authority, p.authority, max);
    lemma_opt_step(p3, PseudoName::Path, p.path, max);
    lemma_opt_step(p4, PseudoName::Protocol, p.protocol, max);
    lemma_opt_step(p5, PseudoName::Status, status, max);
    lemma_run_concat(only_pseudo(p4), f5, f6, max);
    lemma_run_concat(only_pseudo(p3), f4, f5 + f6, max);
    lemma_run_concat(only_pseudo(p2), f3, f4 + (f5 + f6), max);
    lemma_run_concat(only_pseudo(p1), f2, f3 + (f4 + (f5 + f6)), max);
    lemma_run_concat(only_pseudo(p0), f1, f2 + (f3 + (f4 + (f5 + f6))), max);
    assert(only_pseudo(p0) =~= no_block());
    reveal(PseudoView::fields);
    assert(p.fields() == f1 + (f2 + (f3 + (f4 + (f5 + f6)))));
    lemma_opt_writable(PseudoName::Method, p.method);
    lemma_opt_writable(PseudoName::Scheme, p.scheme);
    lemma_opt_writable(PseudoName::Authority, p.authority);
    lemma_opt_writable(PseudoName::Path, p.path);
    lemma_opt_writable(PseudoName::Protocol, p.protocol);
    assert(pseudo_ok(PseudoName::Status, status)) by {
        lemma_names(PseudoName::Status);
    }
    lemma_opt_writable(PseudoName::Status, status);
    lemma_writable_concat(f5, f6);
    lemma_writable_concat(f4, f5 + f6);
    lemma_writable_concat(f3, f4 + (f5 + f6));
    lemma_writable_concat(f2, f3 + (f4 + (f5 + f6)));
    lemma_writable_concat(f1, f2 + (f3 + (f4 + (f5 + f6))));
}

proof fn lemma_opt_writable(name: PseudoName, value: Option<Seq<u8>>)
    requires
        pseudo_ok(name, value),
    ensures
        all_writable(opt_field(name_text(name), value)),
{
    reveal(opt_field);
}

proof fn lemma_writable_concat(a: Seq<FieldView>, b: Seq<FieldView>)
    requires
        all_writable(a),
        all_writable(b),
    ensures
        all_writable(a + b),
{
    assert forall|i: int| 0 <= i < (a + b).len() implies is_writable(#[trigger] (a + b)[i]) by {
        if i < a.len() {
            assert(is_writable(a[i]));
        } else {
            assert(is_writable(b[i - a.len()]));
        }
    }
}

/// The fields of a block that arrives can be written, and come to that block.
pub proof fn lemma_block_run(b: BlockView, max: usize)
    requires
        block_arrives(b, max),
    ensures
        clean_run(state_of(no_block()), b.all(), max),
        load_all(state_of(no_block()), b.all(), max) == state_of(b),
        all_writable(b.all()),
{
    lemma_block_size(b);
    lemma_pseudo_run(b.pseudo, max);
    lemma_fields_run(b, 0, max);
    assert(b.fields.skip(0) =~= b.fields);
    assert(BlockView { fields: b.fields.take(0), ..b } =~= only_pseudo(b.pseudo));
    lemma_run_concat(no_block(), b.pseudo.fields(), b.fields, max);
    lemma_writable_concat(b.pseudo.fields(), b.fields);
}

/// A decoder after the table sizes that stand in front of a block.
pub open spec fn with_updates(d: DecoderView, update: Option<SizeUpdate>) -> DecoderView {
    match update {
        None => d,
        Some(SizeUpdate::One(n)) => DecoderView { table: d.table.resized(n as int), ..d },
        Some(SizeUpdate::Two(a, b)) => DecoderView {
            table: d.table.resized(a as int).resized(b as int),
            ..d
        },
    }
}

/// Table sizes that a decoder takes over.
pub open spec fn updates_ok(d: DecoderView, update: Option<SizeUpdate>) -> bool {
    match update {
        None => true,
        Some(SizeUpdate::One(n)) => n <= d.allowed && n < 0x1000_0000,
        Some(SizeUpdate::Two(a, b)) => a <= d.allowed && a < 0x1000_0000 && b <= d.allowed && b
            < 0x1000_0000,
    }
}

proof fn lemma_load_update(d: DecoderView, n: int, s: Seq<u8>, st: LoadView, max: usize)
    requires
        0 <= n <= d.allowed,
        n < 0x1000_0000,
        st.size <= abuse_limit(max),
    ensures
        load_from(d, integer_bytes(32, 32, n) + s, true, st, max) == load_from(
            DecoderView { table: d.table.resized(n), ..d },
            s,
            true,
            st,
            max,
        ),
{
    lemma_update_round_trip(d, n, s);
    lemma_integer_round_trip(32, 32, n, s);
}

proof fn lemma_load_updates(
    d: DecoderView,
    update: Option<SizeUpdate>,
    s: Seq<u8>,
    st: LoadView,
    max: usize,
)
    requires
        updates_ok(d, update),
        st.size <= abuse_limit(max),
    ensures
        load_from(d, updates_bytes(update) + s, true, st, max) == load_from(
            with_updates(d, update),
            s,
            true,
            st,
            max,
        ),
{
    match update {
        None => {
            assert(updates_bytes(update) + s =~= s);
        },
        Some(SizeUpdate::One(n)) => {
            lemma_load_update(d, n as int, s, st, max);
        },
        Some(SizeUpdate::Two(a, b)) => {
            let second = integer_bytes(32, 32, b as int) + s;
            assert(updates_bytes(update) + s =~= integer_bytes(32, 32, a as int) + second);
            lemma_load_update(d, a as int, second, st, max);
            let mid = DecoderView { table: d.table.resized(a as int), ..d };
            lemma_load_update(mid, b as int, s, st, max);
        },
    }
}

/// A decoder that is ready for a block.
pub open spec fn ready(d: DecoderView) -> DecoderView {
    DecoderView {
        allowed: match d.pending {
            Some(n) => n,
            None => d.allowed,
        },
        pending: None,
        ..d
    }
}

/// How reading the start of a block ends, table sizes in front included: some of
/// its fields were read, the rest of the bytes is left, and if there is any, more
/// is asked for.
pub proof fn lemma_first_part(
    d: DecoderView,
    update: Option<SizeUpdate>,
    b: BlockView,
    k: int,
    max: usize,
) -> (n: int)
    requires
        block_arrives(b, max),
        updates_ok(ready(d), update),
        0 <= k <= fields_bytes(b.all()).len(),
    ensures
        0 <= n <= b.all().len(),
        ({
            let bytes = updates_bytes(update) + fields_bytes(b.all()).take(k);
            let end = load_block(d, bytes, no_block(), max);
            let left = fields_bytes(b.all().skip(n));
            &&& end.decoder == with_updates(ready(d), update)
            &&& end.rest.len() <= left.len()
            &&& end.rest == left.take(end.rest.len() as int)
            &&& k - end.rest.len() == fields_bytes(b.all()).len() - left.len()
            &&& all_writable(b.all().skip(n))
            &&& clean_run(state_of(end.state.block), b.all().skip(n), max)
            &&& load_all(state_of(end.state.block), b.all().skip(n), max) == state_of(b)
            &&& end.rest.len() == 0 ==> end.fault is None
            &&& end.rest.len() > 0 ==> (end.fault matches Some(
                Error::Hpack(DecoderError::NeedMore(_)),
            ))
        }),
        k == fields_bytes(b.all()).len() ==> n == b.all().len(),
{
    lemma_block_run(b, max);
    let st = state_of(no_block());
    assert(no_block().all() =~= Seq::<FieldView>::empty()) by {
        reveal(PseudoView::fields);
        reveal(opt_field);
    }
    assert(list_size(Seq::<FieldView>::empty()) == 0);
    let bytes = fields_bytes(b.all()).take(k);
    lemma_load_updates(ready(d), update, bytes, st, max);
    let n = lemma_load_part(with_updates(ready(d), update), no_block(), b.all(), k, true, max);
    lemma_prefix(no_block(), b.all(), n, max);
    lemma_skip_writable(b.all(), n);
    n
}

proof fn lemma_skip_writable(fields: Seq<FieldView>, n: int)
    requires
        all_writable(fields),
        0 <= n <= fields.len(),
    ensures
        all_writable(fields.skip(n)),
{
    assert forall|i: int| 0 <= i < fields.skip(n).len() implies is_writable(
        #[trigger] fields.skip(n)[i],
    ) by {
        assert(is_writable(fields[i + n]));
    }
}

/// How reading the next part of a block ends, that of `fields` which are left of
/// it.
pub proof fn lemma_next_part(
    d: DecoderView,
    block: BlockView,
    fields: Seq<FieldView>,
    k: int,
    max: usize,
) -> (n: int)
    requires
        d.pending is None,
        all_writable(fields),
        clean_run(state_of(block), fields, max),
        0 <= k <= fields_bytes(fields).len(),
    ensures
        0 <= n <= fields.len(),
        ({
            let end = load_block(d, fields_bytes(fields).take(k), block, max);
            let left = fields_bytes(fields.skip(n));
            &&& end.decoder == d
            &&& end.rest.len() <= left.len()
            &&& end.rest == left.take(end.rest.len() as int)
            &&& k - end.rest.len() == fields_bytes(fields).len() - left.len()
            &&& all_writable(fields.skip(n))
            &&& clean_run(state_of(end.state.block), fields.skip(n), max)
            &&& load_all(state_of(end.state.block), fields.skip(n), max) == load_all(
                state_of(block),
                fields,
                max,
            )
            &&& end.rest.len() == 0 ==> end.fault is None
            &&& end.rest.len() > 0 ==> (end.fault matches Some(
                Error::Hpack(DecoderError::NeedMore(_)),
            ))
        }),
        k == fields_bytes(fields).len() ==> n == fields.len(),
{
    let n = lemma_load_part(d, block, fields, k, true, max);
    lemma_prefix(block, fields, n, max);
    lemma_skip_writable(fields, n);
    assert(ready(d) == d);
    n
}

} // verus!
