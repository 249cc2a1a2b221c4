//! HTTP/2 frames: what they hold and how they stand on the wire.

pub mod block;
pub mod control;
pub mod data;
pub mod error;
pub mod head;
pub mod headers;
pub mod laws;
pub mod reason;
pub mod reload;
pub mod settings;

pub use self::block::{BlockView, HeaderBlock, Pseudo, PseudoView};
pub use self::control::{
    GoAway, GoAwayView, Ping, Priority, Reset, StreamDependency, WindowUpdate,
};
pub use self::data::{Data, DataView};
pub use self::error::Error;
pub use self::head::{Head, Kind, StreamId, HEADER_LEN};
pub use self::headers::{
    Continuation, Headers, HeadersFlag, HeadersView, PushPromise, PushPromiseView,
};
pub use self::reason::Reason;
pub use self::settings::{
    Settings, DEFAULT_INITIAL_WINDOW_SIZE, DEFAULT_MAX_FRAME_SIZE,
    DEFAULT_SETTINGS_HEADER_TABLE_SIZE, MAX_INITIAL_WINDOW_SIZE, MAX_MAX_FRAME_SIZE,
};

use vstd::prelude::*;

verus! {

/// A frame.
#[derive(Debug)]
pub enum Frame {
    Data(Data),
    Headers(Headers),
    Priority(Priority),
    PushPromise(PushPromise),
    Settings(Settings),
    Ping(Ping),
    GoAway(GoAway),
    WindowUpdate(WindowUpdate),
    Reset(Reset),
}

/// What a frame holds.
#[verifier::ext_equal]
pub enum FrameView {
    Data(DataView),
    Headers(HeadersView),
    Priority(Priority),
    PushPromise(PushPromiseView),
    Settings(Settings),
    Ping(Ping),
    GoAway(GoAwayView),
    WindowUpdate(WindowUpdate),
    Reset(Reset),
}

impl View for Frame {
    type V = FrameView;

    open spec fn view(&self) -> FrameView {
        match self {
            Frame::Data(f) => FrameView::Data(f@),
            Frame::Headers(f) => FrameView::Headers(f@),
            Frame::Priority(f) => FrameView::Priority(*f),
            Frame::PushPromise(f) => FrameView::PushPromise(f@),
            Frame::Settings(f) => FrameView::Settings(*f),
            Frame::Ping(f) => FrameView::Ping(*f),
            Frame::GoAway(f) => FrameView::GoAway(f@),
            Frame::WindowUpdate(f) => FrameView::WindowUpdate(*f),
            Frame::Reset(f) => FrameView::Reset(*f),
        }
    }
}

} // verus!
