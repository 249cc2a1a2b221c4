//! The dynamic table of HPACK.

use crate::hpack::error::DecoderError;
use crate::hpack::field::{fields_view, Field, FieldView};
use crate::hpack::static_table::{get_static, static_entry, STATIC_LEN};
use std::collections::VecDeque;
use vstd::prelude::*;

verus! {

/// The size of a run of entries.
pub open spec fn entries_size(entries: Seq<FieldView>) -> nat
    decreases entries.len(),
{
    if entries.len() == 0 {
        0
    } else {
        entries_size(entries.drop_last()) + entries.last().size()
    }
}

/// What stays of a run of entries when the last ones leave, one by one, until
/// the size is at most `limit` or nothing is left.
pub open spec fn evicted(entries: Seq<FieldView>, limit: int) -> Seq<FieldView>
    decreases entries.len(),
{
    if entries.len() == 0 || entries_size(entries) <= limit {
        entries
    } else {
        evicted(entries.drop_last(), limit)
    }
}

/// No text of the entries is out of bounds.
pub open spec fn all_bounded(entries: Seq<FieldView>) -> bool {
    forall|i: int| 0 <= i < entries.len() ==> (#[trigger] entries[i]).bounded()
}

/// A dynamic table: its entries, the newest first, and the size that they may
/// have together.
#[verifier::ext_equal]
pub struct TableView {
    pub entries: Seq<FieldView>,
    pub max_size: int,
}

impl TableView {
    /// The table after a field went in. A field larger than the whole table
    /// empties it and stays out.
    pub open spec fn inserted(self, field: FieldView) -> TableView {
        let kept = evicted(self.entries, self.max_size - field.size());
        TableView {
            entries: if field.size() <= self.max_size {
                seq![field] + kept
            } else {
                kept
            },
            ..self
        }
    }

    /// The table with another bound on its size.
    pub open spec fn resized(self, max_size: int) -> TableView {
        TableView { entries: evicted(self.entries, max_size), max_size }
    }

    /// The entry with this index: the static table comes first, from 1 on.
    pub open spec fn get(self, index: int) -> Result<FieldView, DecoderError> {
        if 1 <= index <= STATIC_LEN {
            Ok(static_entry(index as usize))
        } else if STATIC_LEN < index <= STATIC_LEN + self.entries.len() {
            Ok(self.entries[index - STATIC_LEN - 1])
        } else {
            Err(DecoderError::InvalidTableIndex)
        }
    }
}

/// A dynamic table.
#[derive(Debug)]
pub struct Table {
    entries: VecDeque<Field>,
    size: usize,
    max_size: usize,
}

impl View for Table {
    type V = TableView;

    closed spec fn view(&self) -> TableView {
        TableView { entries: fields_view(self.entries@), max_size: self.max_size as int }
    }
}

proof fn lemma_evicted_bounds(entries: Seq<FieldView>, limit: int)
    ensures
        evicted(entries, limit).len() <= entries.len(),
        evicted(entries, limit) == entries.take(evicted(entries, limit).len() as int),
        entries_size(evicted(entries, limit)) <= entries_size(entries),
        limit >= 0 ==> entries_size(evicted(entries, limit)) <= limit,
        limit < 0 ==> evicted(entries, limit).len() == 0,
    decreases entries.len(),
{
    if entries.len() == 0 || entries_size(entries) <= limit {
        assert(entries.take(entries.len() as int) =~= entries);
    } else {
        lemma_evicted_bounds(entries.drop_last(), limit);
        let n = evicted(entries, limit).len() as int;
        assert(entries.drop_last().take(n) =~= entries.take(n));
    }
}

proof fn lemma_size_front(field: FieldView, entries: Seq<FieldView>)
    ensures
        entries_size(seq![field] + entries) == field.size() + entries_size(entries),
    decreases entries.len(),
{
    let all = seq![field] + entries;
    if entries.len() == 0 {
        assert(all.drop_last() =~= Seq::<FieldView>::empty());
        assert(all.last() == field);
        assert(entries_size(Seq::<FieldView>::empty()) == 0);
        assert(entries =~= Seq::<FieldView>::empty());
    } else {
        assert(all.drop_last() =~= seq![field] + entries.drop_last());
        assert(all.last() == entries.last());
        lemma_size_front(field, entries.drop_last());
    }
}

impl Table {
    /// The size is what the entries add up to, and within its bound.
    pub closed spec fn wf(self) -> bool {
        &&& self.size == entries_size(self@.entries)
        &&& self.size <= self.max_size
        &&& all_bounded(self@.entries)
    }

    /// An empty table.
    pub fn new(max_size: usize) -> (t: Table)
        ensures
            t.wf(),
            t@ == (TableView { entries: Seq::empty(), max_size: max_size as int }),
    {
        let t = Table { entries: VecDeque::new(), size: 0, max_size };
        assert(t@.entries =~= Seq::<FieldView>::empty());
        t
    }

    fn evict(&mut self, limit: usize)
        requires
            old(self).size == entries_size(old(self)@.entries),
            all_bounded(old(self)@.entries),
        ensures
            final(self).size == entries_size(final(self)@.entries),
            final(self)@.entries == evicted(old(self)@.entries, limit as int),
            final(self).size <= limit,
            final(self).max_size == old(self).max_size,
            all_bounded(final(self)@.entries),
    {
        while self.size > limit
            invariant
                self.size == entries_size(self@.entries),
                self.max_size == old(self).max_size,
                evicted(self@.entries, limit as int) == evicted(old(self)@.entries, limit as int),
                all_bounded(self@.entries),
            decreases self.entries@.len(),
        {
            let ghost before = self@.entries;
            assert(before.len() > 0);
            assert(before.last() == self.entries@.last()@);
            match self.entries.pop_back() {
                Some(field) => {
                    assert(before[before.len() - 1].bounded());
                    self.size = self.size - field.size();
                    assert(self@.entries =~= before.drop_last());
                },
                None => {},
            }
        }
    }

    /// Puts a field in front.
    pub fn insert(&mut self, field: Field)
        requires
            old(self).wf(),
            field@.bounded(),
        ensures
            final(self).wf(),
            final(self)@ == old(self)@.inserted(field@),
    {
        let len: usize = field.size();
        let ghost before = self@;
        if len > self.max_size {
            proof {
                lemma_evicted_bounds(before.entries, before.max_size - len);
                lemma_evicted_bounds(before.entries, 0);
            }
            self.entries = VecDeque::new();
            self.size = 0;
            assert(self@.entries =~= evicted(before.entries, before.max_size - len));
            return;
        }
        self.evict(self.max_size - len);
        let ghost kept = self@.entries;
        proof {
            lemma_size_front(field@, kept);
        }
        self.size = self.size + len;
        let ghost f = field@;
        self.entries.push_front(field);
        assert(self@.entries =~= seq![f] + kept);
        assert forall|i: int| 0 <= i < self@.entries.len() implies (
        #[trigger] self@.entries[i]).bounded() by {
            if i > 0 {
                assert(self@.entries[i] == kept[i - 1]);
            }
        }
    }

    /// Changes the bound on the size.
    pub fn set_max_size(&mut self, max_size: usize)
        requires
            old(self).wf(),
        ensures
            final(self).wf(),
            final(self)@ == old(self)@.resized(max_size as int),
    {
        self.evict(max_size);
        self.max_size = max_size;
    }

    /// A copy of the entry with this index.
    pub fn get(&self, index: usize) -> (r: Result<Field, DecoderError>)
        requires
            self.wf(),
        ensures
            match r {
                Ok(f) => self@.get(index as int) == Ok::<FieldView, DecoderError>(f@)
                    && f@.bounded(),
                Err(e) => self@.get(index as int) == Err::<FieldView, DecoderError>(e),
            },
    {
        if index == 0 {
            return Err(DecoderError::InvalidTableIndex);
        }
        if index <= STATIC_LEN {
            return Ok(get_static(index));
        }
        let i: usize = index - STATIC_LEN - 1;
        if i < self.entries.len() {
            assert(self@.entries[i as int].bounded());
            return Ok(self.entries[i].copy());
        }
        Err(DecoderError::InvalidTableIndex)
    }
}

} // verus!
