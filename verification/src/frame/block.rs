//! Header blocks: what a HEADERS or PUSH_PROMISE frame says of a message.

use crate::buf::{advance, as_slice, contents};
use crate::frame::error::Error;
use crate::hpack::decoder::{lemma_step_shrinks, step_of, Decoder, DecoderView};
use crate::hpack::encoder::{fields_bytes, updates_bytes, Encoder};
use crate::hpack::field::{fields_view, pseudo_name, pseudo_name_of, Field, FieldView, PseudoName};
use crate::names::{
    AUTHORITY, CONNECTION, KEEP_ALIVE, METHOD, PATH, PROTOCOL, PROXY_CONNECTION, SCHEME, STATUS,
    TE, TRAILERS, TRANSFER_ENCODING, UPGRADE,
};
use crate::text::{status_from_bytes, status_of};
use crate::wire::same_bytes;
use bytes::BytesMut;
use vstd::prelude::*;

verus! {

/// The view of an optional text.
pub open spec fn text_view(text: Option<Vec<u8>>) -> Option<Seq<u8>> {
    match text {
        Some(t) => Some(t@),
        None => None,
    }
}

/// The pseudo-headers of a message.
#[derive(Debug)]
pub struct Pseudo {
    pub method: Option<Vec<u8>>,
    pub scheme: Option<Vec<u8>>,
    pub authority: Option<Vec<u8>>,
    pub path: Option<Vec<u8>>,
    pub protocol: Option<Vec<u8>>,
    pub status: Option<u16>,
}

/// The pseudo-headers of a message, as texts.
#[verifier::ext_equal]
pub struct PseudoView {
    pub method: Option<Seq<u8>>,
    pub scheme: Option<Seq<u8>>,
    pub authority: Option<Seq<u8>>,
    pub path: Option<Seq<u8>>,
    pub protocol: Option<Seq<u8>>,
    pub status: Option<u16>,
}

impl View for Pseudo {
    type V = PseudoView;

    open spec fn view(&self) -> PseudoView {
        PseudoView {
            method: text_view(self.method),
            scheme: text_view(self.scheme),
            authority: text_view(self.authority),
            path: text_view(self.path),
            protocol: text_view(self.protocol),
            status: self.status,
        }
    }
}

/// No pseudo-header.
pub open spec fn no_pseudo() -> PseudoView {
    PseudoView {
        method: None,
        scheme: None,
        authority: None,
        path: None,
        protocol: None,
        status: None,
    }
}

impl PseudoView {
    /// Whether a pseudo-header is there.
    pub open spec fn has(self, name: PseudoName) -> bool {
        match name {
            PseudoName::Method => self.method is Some,
            PseudoName::Scheme => self.scheme is Some,
            PseudoName::Authority => self.authority is Some,
            PseudoName::Path => self.path is Some,
            PseudoName::Protocol => self.protocol is Some,
            PseudoName::Status => self.status is Some,
        }
    }

    /// The pseudo-headers with one of them set.
    pub open spec fn with(self, name: PseudoName, value: Seq<u8>) -> PseudoView {
        match name {
            PseudoName::Method => PseudoView { method: Some(value), ..self },
            PseudoName::Scheme => PseudoView { scheme: Some(value), ..self },
            PseudoName::Authority => PseudoView { authority: Some(value), ..self },
            PseudoName::Path => PseudoView { path: Some(value), ..self },
            PseudoName::Protocol => PseudoView { protocol: Some(value), ..self },
            PseudoName::Status => PseudoView { status: status_of(value), ..self },
        }
    }

    /// The pseudo-headers as fields, in the order in which they are written.
    #[verifier::opaque]
    pub open spec fn fields(self) -> Seq<FieldView> {
        opt_field(METHOD@, self.method) + (opt_field(SCHEME@, self.scheme) + (opt_field(
            AUTHORITY@,
            self.authority,
        ) + (opt_field(PATH@, self.path) + (opt_field(PROTOCOL@, self.protocol) + opt_field(
            STATUS@,
            match self.status {
                Some(status) => Some(status_bytes(status)),
                None => None,
            },
        )))))
    }
}

/// A field, if its value is there.
#[verifier::opaque]
pub open spec fn opt_field(name: Seq<u8>, value: Option<Seq<u8>>) -> Seq<FieldView> {
    match value {
        Some(value) => seq![FieldView { name, value }],
        None => Seq::empty(),
    }
}

/// A status in three digits.
pub open spec fn status_bytes(status: u16) -> Seq<u8> {
    seq![
        (48 + status as int / 100 % 10) as u8,
        (48 + status as int / 10 % 10) as u8,
        (48 + status as int % 10) as u8,
    ]
}

impl Pseudo {
    /// No pseudo-header.
    pub fn empty() -> (p: Pseudo)
        ensures
            p@ == no_pseudo(),
    {
        Pseudo {
            method: None,
            scheme: None,
            authority: None,
            path: None,
            protocol: None,
            status: None,
        }
    }

    fn has(&self, name: PseudoName) -> (r: bool)
        ensures
            r == self@.has(name),
    {
        match name {
            PseudoName::Method => self.method.is_some(),
            PseudoName::Scheme => self.scheme.is_some(),
            PseudoName::Authority => self.authority.is_some(),
            PseudoName::Path => self.path.is_some(),
            PseudoName::Protocol => self.protocol.is_some(),
            PseudoName::Status => self.status.is_some(),
        }
    }

    fn set(&mut self, name: PseudoName, value: Vec<u8>)
        ensures
            final(self)@ == old(self)@.with(name, value@),
    {
        match name {
            PseudoName::Method => {
                self.method = Some(value);
            },
            PseudoName::Scheme => {
                self.scheme = Some(value);
            },
            PseudoName::Authority => {
                self.authority = Some(value);
            },
            PseudoName::Path => {
                self.path = Some(value);
            },
            PseudoName::Protocol => {
                self.protocol = Some(value);
            },
            PseudoName::Status => {
                self.status = status_from_bytes(value.as_slice());
            },
        }
    }
}

impl Pseudo {
    /// The pseudo-headers as fields, in the order in which they are written.
    pub fn list(&self) -> (v: Vec<Field>)
        ensures
            fields_view(v@) == self@.fields(),
    {
        let mut v: Vec<Field> = Vec::new();
        push_opt(&mut v, METHOD.as_slice(), &self.method);
        push_opt(&mut v, SCHEME.as_slice(), &self.scheme);
        push_opt(&mut v, AUTHORITY.as_slice(), &self.authority);
        push_opt(&mut v, PATH.as_slice(), &self.path);
        push_opt(&mut v, PROTOCOL.as_slice(), &self.protocol);
        let status = match self.status {
            Some(status) => Some(status_text(status)),
            None => None,
        };
        push_opt(&mut v, STATUS.as_slice(), &status);
        reveal(PseudoView::fields);
        assert(fields_view(v@) =~= self@.fields());
        v
    }
}

/// A header block.
#[derive(Debug)]
pub struct HeaderBlock {
    pub pseudo: Pseudo,
    pub fields: Vec<Field>,
    pub is_over_size: bool,
}

/// What a header block holds: the pseudo-headers, the other fields in their
/// order, and whether some were left out because the list was too large.
#[verifier::ext_equal]
pub struct BlockView {
    pub pseudo: PseudoView,
    pub fields: Seq<FieldView>,
    pub is_over_size: bool,
}

impl View for HeaderBlock {
    type V = BlockView;

    open spec fn view(&self) -> BlockView {
        BlockView {
            pseudo: self.pseudo@,
            fields: fields_view(self.fields@),
            is_over_size: self.is_over_size,
        }
    }
}

/// The size of a list of fields.
pub open spec fn list_size(fields: Seq<FieldView>) -> nat
    decreases fields.len(),
{
    if fields.len() == 0 {
        0
    } else {
        list_size(fields.drop_last()) + fields.last().size()
    }
}

impl BlockView {
    /// Every field of the block, in the order in which they are written.
    pub open spec fn all(self) -> Seq<FieldView> {
        self.pseudo.fields() + self.fields
    }
}

/// A header that speaks of the connection has no place in HTTP/2.
pub open spec fn is_connection_header(name: Seq<u8>) -> bool {
    ||| name == CONNECTION@
    ||| name == TRANSFER_ENCODING@
    ||| name == UPGRADE@
    ||| name == KEEP_ALIVE@
    ||| name == PROXY_CONNECTION@
}

/// The state of reading a header block: the block so far, whether a field that
/// is no pseudo-header was seen, whether the block is malformed, and the size
/// of the list.
#[verifier::ext_equal]
pub struct LoadView {
    pub block: BlockView,
    pub regular: bool,
    pub malformed: bool,
    pub size: nat,
}

/// A larger header list than this ends the connection: four times the size
/// that is kept, and never less than 65536.
pub open spec fn abuse_limit(max: usize) -> int {
    if max as int * 4 <= 65_536 {
        65_536
    } else if max as int * 4 >= usize::MAX {
        usize::MAX - 1
    } else {
        max as int * 4
    }
}

/// The state after one more field. Fields count for the size of the list and
/// are kept only while it stays below `max`.
pub open spec fn load_field(st: LoadView, f: FieldView, max: usize) -> LoadView {
    let size = st.size + f.size();
    match pseudo_name_of(f.name) {
        Some(name) => if st.regular || st.block.pseudo.has(name) {
            LoadView { malformed: true, ..st }
        } else if size < max {
            LoadView {
                block: BlockView { pseudo: st.block.pseudo.with(name, f.value), ..st.block },
                size,
                ..st
            }
        } else {
            LoadView { block: BlockView { is_over_size: true, ..st.block }, size, ..st }
        },
        None => if is_connection_header(f.name) || f.name == TE@ && f.value != TRAILERS@ {
            LoadView { malformed: true, ..st }
        } else if size < max {
            LoadView {
                block: BlockView { fields: st.block.fields.push(f), ..st.block },
                regular: true,
                size,
                ..st
            }
        } else {
            LoadView {
                block: BlockView { is_over_size: true, ..st.block },
                regular: true,
                size,
                ..st
            }
        },
    }
}

/// How reading the bytes of a header block ends.
#[verifier::ext_equal]
pub struct LoadEnd {
    pub decoder: DecoderView,
    pub rest: Seq<u8>,
    pub state: LoadView,
    pub fault: Option<Error>,
}

/// How reading `s` ends.
pub open spec fn load_from(d: DecoderView, s: Seq<u8>, can_resize: bool, st: LoadView, max: usize) -> LoadEnd
    decreases s.len(),
{
    if s.len() == 0 {
        LoadEnd { decoder: d, rest: s, state: st, fault: None }
    } else {
        match step_of(d, s, can_resize) {
            Err(e) => LoadEnd { decoder: d, rest: s, state: st, fault: Some(Error::Hpack(e)) },
            Ok(step) => {
                let after = DecoderView { table: step.table, ..d };
                let st = match step.field {
                    Some(f) => load_field(st, f, max),
                    None => st,
                };
                proof {
                    lemma_step_shrinks(d, s, can_resize);
                }
                if st.size > abuse_limit(max) {
                    LoadEnd {
                        decoder: after,
                        rest: step.rest,
                        state: st,
                        fault: Some(Error::HeaderListWayTooLarge),
                    }
                } else {
                    load_from(after, step.rest, can_resize && step.field is None, st, max)
                }
            },
        }
    }
}

/// How reading `s` into a block ends: with a fault of its bytes, or else with
/// the fault that the block is malformed, or with none.
pub open spec fn load_block(d: DecoderView, s: Seq<u8>, block: BlockView, max: usize) -> LoadEnd {
    let started = DecoderView {
        allowed: match d.pending {
            Some(n) => n,
            None => d.allowed,
        },
        pending: None,
        ..d
    };
    let end = load_from(
        started,
        s,
        true,
        LoadView {
            block,
            regular: block.fields.len() > 0,
            malformed: false,
            size: list_size(block.all()),
        },
        max,
    );
    if end.fault is None && end.state.malformed {
        LoadEnd { fault: Some(Error::MalformedMessage), ..end }
    } else {
        end
    }
}

/// A size as a machine integer holds it.
pub open spec fn capped(n: nat) -> usize {
    if n > usize::MAX {
        usize::MAX
    } else {
        n as usize
    }
}

fn add_capped(a: usize, b: usize) -> (r: usize)
    ensures
        r == capped((a + b) as nat),
{
    if b > usize::MAX - a {
        usize::MAX
    } else {
        a + b
    }
}

fn add_field_size(size: usize, f: &Field, Ghost(n): Ghost<nat>) -> (r: usize)
    requires
        size == capped(n),
    ensures
        r == capped(n + f@.size()),
{
    add_capped(add_capped(add_capped(size, f.name.len()), f.value.len()), 32)
}

/// Whether a header speaks of the connection.
pub fn is_connection_specific(name: &[u8]) -> (r: bool)
    ensures
        r == is_connection_header(name@),
{
    same_bytes(name, CONNECTION.as_slice()) || same_bytes(name, TRANSFER_ENCODING.as_slice())
        || same_bytes(name, UPGRADE.as_slice()) || same_bytes(name, KEEP_ALIVE.as_slice())
        || same_bytes(name, PROXY_CONNECTION.as_slice())
}

fn push_opt(fields: &mut Vec<Field>, name: &[u8], value: &Option<Vec<u8>>)
    ensures
        fields_view(final(fields)@) == fields_view(old(fields)@) + opt_field(
            name@,
            text_view(*value),
        ),
{
    reveal(opt_field);
    match value {
        Some(value) => {
            fields.push(Field::copied(name, value.as_slice()));
            assert(fields_view(fields@) =~= fields_view(old(fields)@) + opt_field(
                name@,
                Some(value@),
            ));
        },
        None => {
            assert(fields_view(fields@) =~= fields_view(old(fields)@) + opt_field(name@, None));
        },
    }
}

fn status_text(status: u16) -> (v: Vec<u8>)
    ensures
        v@ == status_bytes(status),
{
    let mut v: Vec<u8> = Vec::new();
    v.push((48 + status / 100 % 10) as u8);
    v.push((48 + status / 10 % 10) as u8);
    v.push((48 + status % 10) as u8);
    assert(v@ =~= status_bytes(status));
    v
}

struct Loading {
    regular: bool,
    malformed: bool,
    size: usize,
    total: Ghost<nat>,
}

impl Loading {
    spec fn wf(self) -> bool {
        self.size == capped(self.total@)
    }

    spec fn state(self, block: BlockView) -> LoadView {
        LoadView { block, regular: self.regular, malformed: self.malformed, size: self.total@ }
    }

    fn grow(&mut self, f: &Field)
        requires
            old(self).wf(),
        ensures
            final(self).wf(),
            final(self).regular == old(self).regular,
            final(self).malformed == old(self).malformed,
            final(self).total@ == old(self).total@ + f@.size(),
    {
        self.size = add_field_size(self.size, f, self.total);
        self.total = Ghost(self.total@ + f@.size());
    }
}

impl HeaderBlock {
    /// A block with neither pseudo-headers nor fields.
    pub fn empty() -> (b: HeaderBlock)
        ensures
            b@ == (BlockView { pseudo: no_pseudo(), fields: Seq::empty(), is_over_size: false }),
    {
        let b = HeaderBlock { pseudo: Pseudo::empty(), fields: Vec::new(), is_over_size: false };
        assert(b@.fields =~= Seq::<FieldView>::empty());
        reveal(PseudoView::fields);
        reveal(opt_field);
        assert(b@.all() =~= Seq::<FieldView>::empty());
        b
    }

    /// Every field of the block, in the order in which they are written.
    pub fn all(&self) -> (v: Vec<Field>)
        ensures
            fields_view(v@) == self@.all(),
    {
        let mut v = self.pseudo.list();
        assert(fields_view(v@) =~= self@.pseudo.fields() + self@.fields.take(0));
        let mut i: usize = 0;
        while i < self.fields.len()
            invariant
                i <= self.fields@.len(),
                fields_view(v@) =~= self@.pseudo.fields() + self@.fields.take(i as int),
            decreases self.fields.len() - i,
        {
            let ghost before = fields_view(v@);
            let field = self.fields[i].copy();
            v.push(field);
            assert(fields_view(v@) =~= before.push(field@));
            assert(self@.fields.take(i + 1) =~= self@.fields.take(i as int).push(
                self.fields@[i as int]@,
            ));
            i = i + 1;
        }
        assert(self@.fields.take(i as int) =~= self@.fields);
        v
    }

    fn list_size(&self) -> (n: usize)
        ensures
            n == capped(list_size(self@.all())),
    {
        let all = self.all();
        let ghost seen = fields_view(all@);
        let mut n: usize = 0;
        let mut i: usize = 0;
        assert(seen.take(0) =~= Seq::<FieldView>::empty());
        while i < all.len()
            invariant
                i <= all@.len(),
                seen == fields_view(all@),
                seen == self@.all(),
                n == capped(list_size(seen.take(i as int))),
            decreases all.len() - i,
        {
            let ghost so_far = seen.take(i as int);
            assert(seen.take(i + 1).drop_last() =~= so_far);
            n = add_field_size(n, &all[i], Ghost(list_size(so_far)));
            i = i + 1;
        }
        assert(seen.take(i as int) =~= seen);
        n
    }

    fn load_field(&mut self, st: &mut Loading, field: Field, max: usize)
        requires
            old(st).wf(),
        ensures
            final(st).wf(),
            final(st).state(final(self)@) == load_field(old(st).state(old(self)@), field@, max),
    {
        let ghost before = st.state(self@);
        match pseudo_name(field.name.as_slice()) {
            Some(name) => {
                if st.regular || self.pseudo.has(name) {
                    st.malformed = true;
                    return;
                }
                st.grow(&field);
                if st.size < max {
                    self.pseudo.set(name, field.value);
                } else {
                    self.is_over_size = true;
                }
            },
            None => {
                let name = field.name.as_slice();
                if is_connection_specific(name) || same_bytes(name, TE.as_slice()) && !same_bytes(
                    field.value.as_slice(),
                    TRAILERS.as_slice(),
                ) {
                    st.malformed = true;
                    return;
                }
                st.regular = true;
                st.grow(&field);
                if st.size < max {
                    let ghost view = field@;
                    self.fields.push(field);
                    assert(self@.fields =~= before.block.fields.push(view));
                } else {
                    self.is_over_size = true;
                }
            },
        }
    }

    /// Reads the next part of the block. Whole representations leave `src`,
    /// and with them what the decoder learns from them; what stops too early
    /// stays.
    pub fn load(&mut self, src: &mut BytesMut, max: usize, decoder: &mut Decoder) -> (r: Result<
        (),
        Error,
    >)
        requires
            old(decoder).wf(),
        ensures
            final(decoder).wf(),
            ({
                let end = load_block(old(decoder)@, contents(*old(src)), old(self)@, max);
                &&& final(decoder)@ == end.decoder
                &&& contents(*final(src)) == end.rest
                &&& final(self)@ == end.state.block
                &&& r == match end.fault {
                    None => Ok::<(), Error>(()),
                    Some(e) => Err(e),
                }
            }),
    {
        let mut st = Loading {
            regular: self.fields.len() > 0,
            malformed: false,
            size: self.list_size(),
            total: Ghost(list_size(self@.all())),
        };
        decoder.start();
        let ghost s = contents(*src);
        let ghost end = load_from(decoder@, s, true, st.state(self@), max);
        let limit: usize = if max > (usize::MAX - 1) / 4 {
            usize::MAX - 1
        } else if max * 4 <= 65_536 {
            65_536
        } else {
            max * 4
        };
        let mut can_resize = true;
        let mut fault: Option<Error> = None;
        let mut at: usize = 0;
        let len: usize = src.len();
        assert(s.skip(0) =~= s);
        while at < len && fault.is_none()
            invariant
                at <= len,
                s == contents(*src),
                len == s.len(),
                limit == abuse_limit(max),
                decoder.wf(),
                st.wf(),
                end == match fault {
                    None => load_from(
                        decoder@,
                        s.skip(at as int),
                        can_resize,
                        st.state(self@),
                        max,
                    ),
                    Some(_) => LoadEnd {
                        decoder: decoder@,
                        rest: s.skip(at as int),
                        state: st.state(self@),
                        fault,
                    },
                },
            decreases len - at,
                if fault is None {
                    1int
                } else {
                    0
                },
        {
            match decoder.next(as_slice(src), at, can_resize) {
                Ok(step) => {
                    match step.field {
                        Some(field) => {
                            can_resize = false;
                            self.load_field(&mut st, field, max);
                        },
                        None => {},
                    }
                    at = step.end;
                    if st.size > limit {
                        fault = Some(Error::HeaderListWayTooLarge);
                    }
                },
                Err(e) => {
                    fault = Some(Error::Hpack(e));
                },
            }
        }
        proof {
            if fault is None {
                assert(s.skip(at as int).len() == 0);
            }
        }
        advance(src, at);
        match fault {
            Some(e) => Err(e),
            None => {
                if st.malformed {
                    Err(Error::MalformedMessage)
                } else {
                    Ok(())
                }
            },
        }
    }

    /// The block in bytes.
    pub fn into_encoding(self, encoder: &mut Encoder) -> (r: BytesMut)
        ensures
            *final(encoder) == old(encoder).told(),
            contents(r) == updates_bytes(old(encoder).size_update) + fields_bytes(self@.all()),
    {
        let all = self.all();
        let mut dst = BytesMut::new();
        encoder.encode(&all, &mut dst);
        assert(contents(dst) =~= updates_bytes(old(encoder).size_update) + fields_bytes(
            self@.all(),
        ));
        dst
    }
}

} // verus!
