//! The codec: bytes to frames and back.

pub mod cut;
pub mod error;
pub mod framed_read;
pub mod framed_write;
pub mod laws;
pub mod round_trip;
pub mod runs;

pub use self::error::UserError;
pub use self::framed_read::{FramedRead, FramedReadView};
pub use self::framed_write::{FramedWrite, FramedWriteView, NextView};

use crate::buf::contents;
use crate::codec::framed_read::{max_continuations, next_frame_of, outcome};
use crate::codec::framed_write::{
    buffered, can_buffer, DEFAULT_BUFFER_CAPACITY, MIN_BUFFER_CAPACITY,
};
use crate::frame::{Data, Frame, DEFAULT_MAX_FRAME_SIZE, MAX_MAX_FRAME_SIZE};
use crate::hpack::DecoderView;
use crate::proto::error::Error;
use bytes::BytesMut;
use vstd::prelude::*;

verus! {

/// Bytes from the peer in, frames out; frames in, bytes for the peer out.
#[derive(Debug)]
pub struct Codec {
    read: FramedRead,
    write: FramedWrite,
    out: BytesMut,
}

/// What a codec knows: its two sides, and the bytes that it has drained and not
/// handed out yet.
#[verifier::ext_equal]
pub struct CodecView {
    pub read: FramedReadView,
    pub write: FramedWriteView,
    pub out: Seq<u8>,
}

impl View for Codec {
    type V = CodecView;

    closed spec fn view(&self) -> CodecView {
        CodecView { read: self.read@, write: self.write@, out: contents(self.out) }
    }
}

impl CodecView {
    /// Every byte that is still to be handed out, in order.
    pub open spec fn transmit(self) -> Seq<u8> {
        self.out + self.write.pending()
    }

    /// The codec with everything drained.
    pub open spec fn drained(self) -> CodecView {
        CodecView { write: self.write.flushed(), out: self.transmit(), ..self }
    }

    /// The codec with everything handed out.
    pub open spec fn sent(self) -> CodecView {
        CodecView { write: self.write.flushed(), out: Seq::empty(), ..self }
    }
}

/// A codec that nothing has gone through, and that accepts payloads of this size.
pub open spec fn new_codec(max_frame_size: usize) -> CodecView {
    let table = crate::hpack::table::TableView { entries: Seq::empty(), max_size: 4096 };
    let list_max = framed_read::DEFAULT_SETTINGS_MAX_HEADER_LIST_SIZE;
    CodecView {
        read: FramedReadView {
            buffer: Seq::empty(),
            admitted: false,
            max_frame_size,
            decoder: DecoderView { table, allowed: 4096, pending: None },
            max_header_list_size: list_max,
            max_continuations: max_continuations(list_max, max_frame_size),
            partial: None,
        },
        write: FramedWriteView {
            encoder: crate::hpack::Encoder { max_size: 4096, size_update: None },
            buf: Seq::empty(),
            next: NextView::Nothing,
            last_data_frame: None,
            max_frame_size: DEFAULT_MAX_FRAME_SIZE as usize,
        },
        out: Seq::empty(),
    }
}

/// Draining twice is draining once, and draining changes nothing of what is
/// still to be handed out.
pub proof fn lemma_drain(c: CodecView)
    requires
        c.write.wf(),
    ensures
        c.drained().drained() == c.drained(),
        c.drained().transmit() == c.transmit(),
        c.sent().transmit() == Seq::<u8>::empty(),
        c.sent().drained() == c.sent(),
{
    framed_write::lemma_flushed_is_empty(c.write);
    assert(c.drained().transmit() =~= c.transmit());
    assert(c.sent().transmit() =~= Seq::<u8>::empty());
    assert(c.drained().drained() =~= c.drained());
    assert(c.sent().drained() =~= c.sent());
}

impl Codec {
    /// Both sides are in order, and a header block that is not written out can
    /// go on.
    pub closed spec fn wf(self) -> bool {
        &&& self.read.wf()
        &&& self@.read.wf()
        &&& self@.write.wf()
        &&& self@.write.can_flush()
        &&& self.room() == DEFAULT_BUFFER_CAPACITY
    }

    /// The room that the buffer of the write side was made with.
    pub closed spec fn room(self) -> nat {
        self.write.room()
    }

    /// Nothing is half written, and what the buffer was made with leaves room for
    /// the head and the payload of a short frame.
    pub open spec fn is_roomy(self) -> bool {
        &&& self@.write.next is Nothing
        &&& self.room() - self@.write.buf.len() >= MIN_BUFFER_CAPACITY
    }

    /// What holds of a codec in order.
    pub proof fn lemma_wf(&self)
        requires
            self.wf(),
        ensures
            self@.read.wf(),
            self@.write.wf(),
            self@.write.can_flush(),
            self.room() == DEFAULT_BUFFER_CAPACITY,
    {
    }

    /// A codec that accepts payloads of the size that everyone must accept.
    pub fn new() -> (c: Codec)
        ensures
            c.wf(),
            c.room() == DEFAULT_BUFFER_CAPACITY,
            c@ == new_codec(DEFAULT_MAX_FRAME_SIZE as usize),
    {
        Codec::with_max_recv_frame_size(DEFAULT_MAX_FRAME_SIZE as usize)
    }

    /// A codec that accepts payloads of this size.
    pub fn with_max_recv_frame_size(max_frame_size: usize) -> (c: Codec)
        requires
            DEFAULT_MAX_FRAME_SIZE <= max_frame_size <= MAX_MAX_FRAME_SIZE,
        ensures
            c.wf(),
            c.room() == DEFAULT_BUFFER_CAPACITY,
            c@ == new_codec(max_frame_size),
    {
        let mut read = FramedRead::new();
        // Use FramedRead's method since it checks the value is within range.
        read.set_max_frame_size(max_frame_size);
        proof {
            read.lemma_wf();
        }
        let c = Codec { read, write: FramedWrite::new(), out: BytesMut::new() };
        c
    }

    /// Changes the largest payload that is accepted from the peer, from the next
    /// frame on: one whose payload is awaited already is still taken.
    pub fn set_max_recv_frame_size(&mut self, val: usize)
        requires
            old(self).wf(),
            DEFAULT_MAX_FRAME_SIZE <= val <= MAX_MAX_FRAME_SIZE,
        ensures
            final(self).wf(),
            final(self).room() == old(self).room(),
            final(self)@ == (CodecView {
                read: FramedReadView {
                    max_frame_size: val,
                    max_continuations: max_continuations(
                        old(self)@.read.max_header_list_size,
                        val,
                    ),
                    ..old(self)@.read
                },
                ..old(self)@
            }),
    {
        self.read.set_max_frame_size(val);
        proof {
            self.read.lemma_wf();
        }
    }

    /// The largest payload that is accepted from the peer.
    pub fn max_recv_frame_size(&self) -> (n: usize)
        ensures
            n == self@.read.max_frame_size,
    {
        self.read.max_frame_size()
    }

    /// The largest payload that the peer accepts.
    pub fn max_send_frame_size(&self) -> (n: usize)
        ensures
            n == self@.write.max_frame_size,
    {
        self.write.max_frame_size()
    }

    /// Changes the largest payload that the peer accepts. A header block that is
    /// not written out could not go on in empty frames.
    pub fn set_max_send_frame_size(&mut self, val: usize)
        requires
            old(self).wf(),
            val <= MAX_MAX_FRAME_SIZE,
            old(self)@.write.next is Continuation ==> val > 0,
        ensures
            final(self).wf(),
            final(self).room() == old(self).room(),
            final(self)@ == (CodecView {
                write: FramedWriteView { max_frame_size: val, ..old(self)@.write },
                ..old(self)@
            }),
    {
        self.write.set_max_frame_size(val);
    }

    /// Takes note of a header table size that the peer allows.
    pub fn set_send_header_table_size(&mut self, val: usize)
        requires
            old(self).wf(),
        ensures
            final(self).wf(),
            final(self).room() == old(self).room(),
            final(self)@ == (CodecView {
                write: FramedWriteView {
                    encoder: old(self)@.write.encoder.allowed(val),
                    ..old(self)@.write
                },
                ..old(self)@
            }),
    {
        self.write.set_header_table_size(val);
    }

    /// Allows the peer another header table size from its next block on. Of
    /// several sizes, the largest counts.
    pub fn set_recv_header_table_size(&mut self, val: usize)
        requires
            old(self).wf(),
        ensures
            final(self).wf(),
            final(self).room() == old(self).room(),
            final(self)@ == (CodecView {
                read: FramedReadView {
                    decoder: DecoderView {
                        pending: Some(
                            match old(self)@.read.decoder.pending {
                                Some(n) if n > val => n,
                                _ => val as int,
                            },
                        ),
                        ..old(self)@.read.decoder
                    },
                    ..old(self)@.read
                },
                ..old(self)@
            }),
    {
        self.read.set_header_table_size(val);
    }

    /// Changes the size of the header lists that are kept.
    pub fn set_max_recv_header_list_size(&mut self, val: usize)
        requires
            old(self).wf(),
        ensures
            final(self).wf(),
            final(self).room() == old(self).room(),
            final(self)@ == (CodecView {
                read: FramedReadView {
                    max_header_list_size: val,
                    max_continuations: max_continuations(val, old(self)@.read.max_frame_size),
                    ..old(self)@.read
                },
                ..old(self)@
            }),
    {
        self.read.set_max_header_list_size(val);
        proof {
            self.read.lemma_wf();
        }
    }

    /// Takes the last DATA frame that was written.
    pub fn take_last_data_frame(&mut self) -> (r: Option<Data>)
        requires
            old(self).wf(),
        ensures
            final(self).wf(),
            final(self).room() == old(self).room(),
            final(self)@ == (CodecView {
                write: FramedWriteView { last_data_frame: None, ..old(self)@.write },
                ..old(self)@
            }),
            old(self)@.write.last_data_frame == match r {
                Some(d) => Some(d@),
                None => None,
            },
    {
        self.write.take_last_data_frame()
    }

    /// Takes bytes from the peer.
    pub fn recv(&mut self, src: &[u8])
        requires
            old(self).wf(),
        ensures
            final(self).wf(),
            final(self).room() == old(self).room(),
            final(self)@ == (CodecView {
                read: FramedReadView {
                    buffer: old(self)@.read.buffer + src@,
                    ..old(self)@.read
                },
                ..old(self)@
            }),
    {
        self.read.recv(src);
    }

    /// Reads the next frame, if it is there as a whole.
    pub fn next_frame(&mut self) -> (r: Result<Option<Frame>, Error>)
        requires
            old(self).wf(),
        ensures
            final(self).wf(),
            final(self).room() == old(self).room(),
            next_frame_of(old(self)@.read) == (final(self)@.read, outcome(r)),
            final(self)@ == (CodecView { read: final(self)@.read, ..old(self)@ }),
    {
        let r = self.read.next_frame();
        proof {
            self.read.lemma_wf();
        }
        r
    }

    /// Whether a frame can go in: nothing is half written, and the buffer has room,
    /// as [`framed_write::has_room`] says of its capacity. The allocator may have given
    /// more than was asked for; where what was asked for is enough, the answer is
    /// `true`.
    pub fn has_capacity(&self) -> (r: bool)
        ensures
            r ==> self@.write.next is Nothing,
            self@.write.next is Nothing && self.room() - self@.write.buf.len()
                >= MIN_BUFFER_CAPACITY ==> r,
    {
        self.write.has_capacity()
    }

    /// Puts a frame in. A DATA frame with a larger payload than the peer accepts
    /// is refused, and changes nothing.
    pub fn buffer(&mut self, item: Frame) -> (r: Result<(), UserError>)
        requires
            old(self).wf(),
            old(self)@.write.next is Nothing,
            can_buffer(old(self)@.write, item@),
            item is Headers || item is PushPromise ==> old(self)@.write.max_frame_size > 0,
        ensures
            final(self).wf(),
            final(self).room() == old(self).room(),
            match buffered(old(self)@.write, item@) {
                Ok(write) => r is Ok && final(self)@ == (CodecView { write, ..old(self)@ }),
                Err(e) => r == Err::<(), UserError>(e) && final(self)@ == old(self)@,
            },
    {
        self.write.buffer(item)
    }

    fn drain_to_out(&mut self)
        requires
            old(self).wf(),
        ensures
            final(self).wf(),
            final(self).room() == old(self).room(),
            final(self)@ == old(self)@.drained(),
            final(self).is_roomy(),
    {
        if self.write.has_pending() {
            self.write.flush_into(&mut self.out);
        } else {
            assert(self@.transmit() =~= self@.out);
            assert(self@ =~= self@.drained());
        }
    }

    /// Whether there are bytes for the peer.
    pub fn wants_transmit(&mut self) -> (r: bool)
        requires
            old(self).wf(),
        ensures
            final(self).wf(),
            final(self).room() == old(self).room(),
            final(self)@ == old(self)@.drained(),
            final(self).is_roomy(),
            r == (old(self)@.transmit().len() > 0),
    {
        self.drain_to_out();
        !self.out.is_empty()
    }

    /// Hands out the bytes for the peer, behind what `dst` holds, and says how
    /// many they are.
    pub fn flush_into(&mut self, dst: &mut BytesMut) -> (n: usize)
        requires
            old(self).wf(),
        ensures
            final(self).wf(),
            final(self).room() == old(self).room(),
            final(self)@ == old(self)@.sent(),
            final(self).is_roomy(),
            contents(*final(dst)) == contents(*old(dst)) + old(self)@.transmit(),
            n == old(self)@.transmit().len(),
    {
        self.drain_to_out();
        let n: usize = self.out.len();
        if n > 0 {
            let mut out = BytesMut::new();
            std::mem::swap(&mut self.out, &mut out);
            dst.unsplit(out);
        } else {
            assert(contents(*dst) =~= contents(*dst) + self@.out);
            assert(self@.out =~= Seq::<u8>::empty());
        }
        n
    }

    /// Hands out the bytes for the peer.
    pub fn take_transmit(&mut self) -> (out: BytesMut)
        requires
            old(self).wf(),
        ensures
            final(self).wf(),
            final(self).room() == old(self).room(),
            final(self)@ == old(self)@.sent(),
            final(self).is_roomy(),
            contents(out) == old(self)@.transmit(),
    {
        self.drain_to_out();
        let mut out = BytesMut::new();
        std::mem::swap(&mut self.out, &mut out);
        out
    }

    /// Makes sure that a frame can go in, by draining what is half written. It
    /// always can: there is nothing to wait for. Where it drained, `has_capacity`
    /// answers `true`; where it did not, `has_capacity` had just answered so.
    pub fn poll_ready(&mut self)
        requires
            old(self).wf(),
        ensures
            final(self).wf(),
            final(self).room() == old(self).room(),
            final(self)@.write.next is Nothing,
            final(self)@ == old(self)@.drained() || old(self)@.write.next is Nothing && final(
                self)@ == old(self)@,
            final(self)@ == old(self)@.drained() ==> final(self).is_roomy(),
            final(self)@.transmit() == old(self)@.transmit(),
    {
        proof {
            lemma_drain(self@);
        }
        if !self.write.has_capacity() {
            self.drain_to_out();
        }
    }

    /// Drains everything that is written. There is nothing to wait for.
    pub fn flush(&mut self)
        requires
            old(self).wf(),
        ensures
            final(self).wf(),
            final(self).room() == old(self).room(),
            final(self)@ == old(self)@.drained(),
            final(self).is_roomy(),
    {
        self.drain_to_out();
    }

    /// Drains everything that is written, for the last time.
    pub fn shutdown(&mut self)
        requires
            old(self).wf(),
        ensures
            final(self).wf(),
            final(self).room() == old(self).room(),
            final(self)@ == old(self)@.drained(),
            final(self).is_roomy(),
    {
        self.drain_to_out();
    }

    /// Reads the next frame. Nothing comes out where more bytes are needed.
    pub fn poll_next(&mut self) -> (r: Option<Result<Frame, Error>>)
        requires
            old(self).wf(),
        ensures
            final(self).wf(),
            final(self).room() == old(self).room(),
            final(self)@ == (CodecView { read: final(self)@.read, ..old(self)@ }),
            next_frame_of(old(self)@.read).0 == final(self)@.read,
            match next_frame_of(old(self)@.read).1 {
                Ok(Some(f)) => r matches Some(Ok(frame)) && frame@ == f,
                Ok(None) => r is None,
                Err(e) => r matches Some(Err(err)) && err@ == e,
            },
    {
        match self.next_frame() {
            Ok(Some(frame)) => Some(Ok(frame)),
            Ok(None) => None,
            Err(e) => Some(Err(e)),
        }
    }
}

impl Default for Codec {
    fn default() -> (c: Codec)
        ensures
            c.wf(),
            c.room() == DEFAULT_BUFFER_CAPACITY,
            c@ == new_codec(DEFAULT_MAX_FRAME_SIZE as usize),
    {
        Codec::new()
    }
}

} // verus!
