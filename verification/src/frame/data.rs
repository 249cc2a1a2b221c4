//! DATA frames.

use crate::buf::{bytes_slice, contents, payload, room};
use crate::frame::error::Error;
use crate::frame::head::{frame_bytes, Head, Kind, StreamId};
use bytes::{Bytes, BytesMut};
use vstd::prelude::*;

verus! {

/// A DATA frame.
#[derive(Debug)]
pub struct Data {
    pub stream_id: StreamId,
    pub data: Bytes,
    pub end_stream: bool,
    pub padded: bool,
    pub pad_len: Option<u8>,
}

/// What a DATA frame holds.
#[verifier::ext_equal]
pub struct DataView {
    pub stream_id: StreamId,
    pub data: Seq<u8>,
    pub end_stream: bool,
    pub padded: bool,
    pub pad_len: Option<u8>,
}

impl View for Data {
    type V = DataView;

    open spec fn view(&self) -> DataView {
        DataView {
            stream_id: self.stream_id,
            data: payload(self.data),
            end_stream: self.end_stream,
            padded: self.padded,
            pad_len: self.pad_len,
        }
    }
}

/// What a DATA frame with this head and payload holds.
pub open spec fn data_of(head: Head, src: Seq<u8>) -> Result<DataView, Error> {
    let end_stream = head.flag % 2 == 1;
    let padded = head.flag / 8 % 2 == 1;
    if head.stream_id.id == 0 {
        Err(Error::InvalidStreamId)
    } else if !padded {
        Ok(DataView { stream_id: head.stream_id, data: src, end_stream, padded, pad_len: None })
    } else if src.len() == 0 || src[0] >= src.len() {
        Err(Error::TooMuchPadding)
    } else {
        Ok(
            DataView {
                stream_id: head.stream_id,
                data: src.subrange(1, src.len() - src[0]),
                end_stream,
                padded,
                pad_len: Some(src[0]),
            },
        )
    }
}

impl DataView {
    /// The head of the frame.
    pub open spec fn head(self) -> Head {
        Head {
            kind: Kind::Data,
            flag: ((if self.end_stream {
                1int
            } else {
                0
            }) + (if self.padded {
                8int
            } else {
                0
            })) as u8,
            stream_id: self.stream_id,
        }
    }

    /// The frame on the wire.
    pub open spec fn wire(self) -> Seq<u8> {
        frame_bytes(self.head(), self.data)
    }
}

impl Data {
    /// A frame without padding, on which the stream does not end.
    pub fn new(stream_id: StreamId, data: Bytes) -> (r: Data)
        requires
            stream_id.id != 0,
        ensures
            r@ == (DataView {
                stream_id,
                data: payload(data),
                end_stream: false,
                padded: false,
                pad_len: None,
            }),
    {
        Data { stream_id, data, end_stream: false, padded: false, pad_len: None }
    }

    /// The head of the frame.
    pub fn head(&self) -> (h: Head)
        ensures
            h == self@.head(),
    {
        let end_stream: u8 = if self.end_stream {
            1
        } else {
            0
        };
        let padded: u8 = if self.padded {
            8
        } else {
            0
        };
        Head::new(Kind::Data, end_stream + padded, self.stream_id)
    }

    /// Reads the frame with this head and payload.
    pub fn load(head: Head, src: Bytes) -> (r: Result<Data, Error>)
        ensures
            match r {
                Ok(f) => data_of(head, payload(src)) == Ok::<DataView, Error>(f@),
                Err(e) => data_of(head, payload(src)) == Err::<DataView, Error>(e),
            },
    {
        let mut data = src;
        let end_stream = head.flag % 2 == 1;
        let padded = head.flag / 8 % 2 == 1;
        if head.stream_id.is_zero() {
            return Err(Error::InvalidStreamId);
        }
        if !padded {
            return Ok(Data { stream_id: head.stream_id, data, end_stream, padded, pad_len: None });
        }
        let len: usize = data.len();
        if len == 0 {
            return Err(Error::TooMuchPadding);
        }
        let pad: u8 = bytes_slice(&data)[0];
        if pad as usize >= len {
            return Err(Error::TooMuchPadding);
        }
        let _ = data.split_to(1);
        data.truncate(len - 1 - pad as usize);
        assert(payload(data) =~= payload(src).subrange(1, payload(src).len() - pad));
        Ok(Data { stream_id: head.stream_id, data, end_stream, padded, pad_len: Some(pad) })
    }

    /// Appends the frame and takes its payload.
    pub fn encode_chunk(&mut self, dst: &mut BytesMut)
        ensures
            contents(*final(dst)) == contents(*old(dst)) + old(self)@.wire(),
            room(*final(dst)) == room(*old(dst)),
            final(self)@ == (DataView { data: Seq::empty(), ..old(self)@ }),
    {
        let len: usize = self.data.len();
        self.head().encode(len, dst);
        let data = self.data.split_to(len);
        dst.extend_from_slice(bytes_slice(&data));
        assert(payload(data) =~= old(self)@.data);
        assert(payload(self.data) =~= Seq::<u8>::empty());
        assert(contents(*dst) =~= contents(*old(dst)) + old(self)@.wire());
    }
}

/// A DATA frame without padding that was written reads back as it was.
pub proof fn lemma_data_round_trip(d: DataView)
    requires
        d.stream_id.id != 0,
        !d.padded,
        d.pad_len is None,
    ensures
        data_of(d.head(), d.data) == Ok::<DataView, Error>(d),
{
}

} // verus!
