//! SETTINGS frames.

use crate::buf::{contents, room};
use crate::frame::error::Error;
use crate::frame::head::{frame_bytes, Head, Kind, StreamId};
use crate::wire::{
    be16, be16_bytes, be32, be32_bytes, lemma_be16_round_trip, lemma_be32_round_trip, put_u16,
    put_u32, read_u16, read_u32,
};
use bytes::BytesMut;
use vstd::prelude::*;

verus! {

/// The dynamic table size that both sides start with.
pub const DEFAULT_SETTINGS_HEADER_TABLE_SIZE: usize = 4_096;

/// The flow-control window that every stream starts with.
pub const DEFAULT_INITIAL_WINDOW_SIZE: u32 = 65_535;

/// The largest payload that a peer must accept.
pub const DEFAULT_MAX_FRAME_SIZE: u32 = 16_384;

/// The largest flow-control window.
pub const MAX_INITIAL_WINDOW_SIZE: u32 = 2_147_483_647;

/// The largest payload that a frame head can announce.
pub const MAX_MAX_FRAME_SIZE: u32 = 16_777_215;

/// A SETTINGS frame: an acknowledgement, or the settings that its sender
/// changes.
#[derive(Clone, Copy, Debug, PartialEq, Eq, Structural)]
pub struct Settings {
    pub ack: bool,
    pub header_table_size: Option<u32>,
    pub enable_push: Option<u32>,
    pub max_concurrent_streams: Option<u32>,
    pub initial_window_size: Option<u32>,
    pub max_frame_size: Option<u32>,
    pub max_header_list_size: Option<u32>,
    pub enable_connect_protocol: Option<u32>,
}

/// No setting.
pub open spec fn no_settings() -> Settings {
    Settings {
        ack: false,
        header_table_size: None,
        enable_push: None,
        max_concurrent_streams: None,
        initial_window_size: None,
        max_frame_size: None,
        max_header_list_size: None,
        enable_connect_protocol: None,
    }
}

/// `acc` after the setting `id` has been read with the value `value`. A setting
/// without a meaning here is passed over.
#[verifier::opaque]
pub open spec fn apply_setting(acc: Settings, id: int, value: u32) -> Result<Settings, Error> {
    if id == 1 {
        Ok(Settings { header_table_size: Some(value), ..acc })
    } else if id == 2 {
        if value <= 1 {
            Ok(Settings { enable_push: Some(value), ..acc })
        } else {
            Err(Error::InvalidSettingValue)
        }
    } else if id == 3 {
        Ok(Settings { max_concurrent_streams: Some(value), ..acc })
    } else if id == 4 {
        if value <= MAX_INITIAL_WINDOW_SIZE {
            Ok(Settings { initial_window_size: Some(value), ..acc })
        } else {
            Err(Error::InvalidSettingValue)
        }
    } else if id == 5 {
        if DEFAULT_MAX_FRAME_SIZE <= value <= MAX_MAX_FRAME_SIZE {
            Ok(Settings { max_frame_size: Some(value), ..acc })
        } else {
            Err(Error::InvalidSettingValue)
        }
    } else if id == 6 {
        Ok(Settings { max_header_list_size: Some(value), ..acc })
    } else if id == 8 {
        if value <= 1 {
            Ok(Settings { enable_connect_protocol: Some(value), ..acc })
        } else {
            Err(Error::InvalidSettingValue)
        }
    } else {
        Ok(acc)
    }
}

/// `acc` after every whole setting of `payload` has been read, in order.
#[verifier::opaque]
pub open spec fn apply_settings(acc: Settings, payload: Seq<u8>) -> Result<Settings, Error>
    decreases payload.len(),
{
    if payload.len() < 6 {
        Ok(acc)
    } else {
        match apply_setting(acc, be16(payload, 0), be32(payload, 2) as u32) {
            Err(e) => Err(e),
            Ok(acc) => apply_settings(acc, payload.skip(6)),
        }
    }
}

/// What a SETTINGS frame with this head and payload holds.
pub open spec fn settings_of(head: Head, payload: Seq<u8>) -> Result<Settings, Error> {
    if head.stream_id.id != 0 {
        Err(Error::InvalidStreamId)
    } else if head.flag % 2 == 1 {
        if payload.len() == 0 {
            Ok(Settings { ack: true, ..no_settings() })
        } else {
            Err(Error::InvalidPayloadLength)
        }
    } else if payload.len() % 6 != 0 {
        Err(Error::InvalidPayloadAckSettings)
    } else {
        apply_settings(no_settings(), payload)
    }
}

/// One setting on the wire, if it is there.
#[verifier::opaque]
pub open spec fn setting_bytes(id: int, value: Option<u32>) -> Seq<u8> {
    match value {
        Some(v) => be16_bytes(id) + be32_bytes(v as int),
        None => Seq::empty(),
    }
}

/// The settings of a frame on the wire.
pub open spec fn settings_payload(s: Settings) -> Seq<u8> {
    setting_bytes(1, s.header_table_size) + (setting_bytes(2, s.enable_push) + (setting_bytes(
        3,
        s.max_concurrent_streams,
    ) + (setting_bytes(4, s.initial_window_size) + (setting_bytes(5, s.max_frame_size) + (
    setting_bytes(6, s.max_header_list_size) + setting_bytes(8, s.enable_connect_protocol))))))
}

impl Settings {
    /// Every setting is in its range, and an acknowledgement has none.
    pub open spec fn wf(self) -> bool {
        &&& self.ack ==> self == (Settings { ack: true, ..no_settings() })
        &&& self.enable_push matches Some(v) ==> v <= 1
        &&& self.initial_window_size matches Some(v) ==> v <= MAX_INITIAL_WINDOW_SIZE
        &&& self.max_frame_size matches Some(v) ==> DEFAULT_MAX_FRAME_SIZE <= v
            <= MAX_MAX_FRAME_SIZE
        &&& self.enable_connect_protocol matches Some(v) ==> v <= 1
    }

    /// The head of the frame.
    pub open spec fn spec_head(self) -> Head {
        Head {
            kind: Kind::Settings,
            flag: if self.ack {
                1
            } else {
                0
            },
            stream_id: StreamId { id: 0 },
        }
    }

    /// The frame on the wire.
    pub open spec fn wire(self) -> Seq<u8> {
        frame_bytes(self.spec_head(), settings_payload(self))
    }

    /// No setting.
    pub fn new() -> (s: Settings)
        ensures
            s == no_settings(),
            s.wf(),
    {
        Settings {
            ack: false,
            header_table_size: None,
            enable_push: None,
            max_concurrent_streams: None,
            initial_window_size: None,
            max_frame_size: None,
            max_header_list_size: None,
            enable_connect_protocol: None,
        }
    }

    /// An acknowledgement.
    pub fn ack() -> (s: Settings)
        ensures
            s == (Settings { ack: true, ..no_settings() }),
            s.wf(),
    {
        let mut s = Settings::new();
        s.ack = true;
        s
    }

    fn apply(&mut self, id: u16, value: u32) -> (r: Result<(), Error>)
        ensures
            match r {
                Ok(()) => apply_setting(*old(self), id as int, value) == Ok::<Settings, Error>(
                    *final(self),
                ),
                Err(e) => apply_setting(*old(self), id as int, value) == Err::<Settings, Error>(e),
            },
            old(self).wf() && !old(self).ack && r is Ok ==> final(self).wf() && !final(self).ack,
    {
        reveal(apply_setting);
        if id == 1 {
            self.header_table_size = Some(value);
        } else if id == 2 {
            if value > 1 {
                return Err(Error::InvalidSettingValue);
            }
            self.enable_push = Some(value);
        } else if id == 3 {
            self.max_concurrent_streams = Some(value);
        } else if id == 4 {
            if value > MAX_INITIAL_WINDOW_SIZE {
                return Err(Error::InvalidSettingValue);
            }
            self.initial_window_size = Some(value);
        } else if id == 5 {
            if value < DEFAULT_MAX_FRAME_SIZE || value > MAX_MAX_FRAME_SIZE {
                return Err(Error::InvalidSettingValue);
            }
            self.max_frame_size = Some(value);
        } else if id == 6 {
            self.max_header_list_size = Some(value);
        } else if id == 8 {
            if value > 1 {
                return Err(Error::InvalidSettingValue);
            }
            self.enable_connect_protocol = Some(value);
        }
        Ok(())
    }

    /// Reads the frame with this head and payload.
    pub fn load(head: Head, payload: &[u8]) -> (r: Result<Settings, Error>)
        ensures
            r == settings_of(head, payload@),
            r matches Ok(s) ==> s.wf(),
    {
        if !head.stream_id.is_zero() {
            return Err(Error::InvalidStreamId);
        }
        if head.flag % 2 == 1 {
            if payload.len() != 0 {
                return Err(Error::InvalidPayloadLength);
            }
            return Ok(Settings::ack());
        }
        if payload.len() % 6 != 0 {
            return Err(Error::InvalidPayloadAckSettings);
        }
        let mut settings = Settings::new();
        let mut at: usize = 0;
        assert(payload@.skip(0) =~= payload@);
        while payload.len() - at >= 6
            invariant
                at <= payload@.len(),
                settings.wf(),
                !settings.ack,
                apply_settings(no_settings(), payload@) == apply_settings(
                    settings,
                    payload@.skip(at as int),
                ),
                head.stream_id.id == 0,
                head.flag % 2 == 0,
                payload@.len() % 6 == 0,
            decreases payload.len() - at,
        {
            let id: u16 = read_u16(payload, at);
            let value: u32 = read_u32(payload, at + 2);
            proof {
                let rest = payload@.skip(at as int);
                assert(be16(rest, 0) == be16(payload@, at as int));
                assert(be32(rest, 2) == be32(payload@, at + 2));
                assert(rest.skip(6) =~= payload@.skip(at + 6));
                reveal(apply_settings);
            }
            match settings.apply(id, value) {
                Ok(()) => {},
                Err(e) => {
                    return Err(e);
                },
            }
            at = at + 6;
        }
        reveal(apply_settings);
        Ok(settings)
    }

    /// Appends the frame.
    pub fn encode(&self, dst: &mut BytesMut)
        ensures
            contents(*final(dst)) == contents(*old(dst)) + self.wire(),
            room(*final(dst)) == room(*old(dst)),
    {
        let flag: u8 = if self.ack {
            1
        } else {
            0
        };
        let head = Head::new(Kind::Settings, flag, StreamId::new(0));
        let len: usize = setting_len(self.header_table_size) + setting_len(self.enable_push)
            + setting_len(self.max_concurrent_streams) + setting_len(self.initial_window_size)
            + setting_len(self.max_frame_size) + setting_len(self.max_header_list_size)
            + setting_len(self.enable_connect_protocol);
        let ghost p8 = setting_bytes(8, self.enable_connect_protocol);
        let ghost p6 = setting_bytes(6, self.max_header_list_size) + p8;
        let ghost p5 = setting_bytes(5, self.max_frame_size) + p6;
        let ghost p4 = setting_bytes(4, self.initial_window_size) + p5;
        let ghost p3 = setting_bytes(3, self.max_concurrent_streams) + p4;
        let ghost p2 = setting_bytes(2, self.enable_push) + p3;
        let ghost p1 = setting_bytes(1, self.header_table_size) + p2;
        assert(p1 == settings_payload(*self));
        assert(p1.len() == len);
        head.encode(len, dst);
        let ghost all = contents(*dst) + p1;
        put_setting(dst, 1, self.header_table_size);
        assert(contents(*dst) + p2 =~= all);
        put_setting(dst, 2, self.enable_push);
        assert(contents(*dst) + p3 =~= all);
        put_setting(dst, 3, self.max_concurrent_streams);
        assert(contents(*dst) + p4 =~= all);
        put_setting(dst, 4, self.initial_window_size);
        assert(contents(*dst) + p5 =~= all);
        put_setting(dst, 5, self.max_frame_size);
        assert(contents(*dst) + p6 =~= all);
        put_setting(dst, 6, self.max_header_list_size);
        assert(contents(*dst) + p8 =~= all);
        put_setting(dst, 8, self.enable_connect_protocol);
        assert(contents(*dst) =~= all);
        assert(all =~= contents(*old(dst)) + self.wire());
    }
}

fn setting_len(value: Option<u32>) -> (n: usize)
    ensures
        n <= 6,
        forall|id: int| #[trigger] setting_bytes(id, value).len() == n,
{
    reveal(setting_bytes);
    match value {
        Some(_) => 6,
        None => 0,
    }
}

fn put_setting(dst: &mut BytesMut, id: u16, value: Option<u32>)
    ensures
        contents(*final(dst)) == contents(*old(dst)) + setting_bytes(id as int, value),
        room(*final(dst)) == room(*old(dst)),
{
    reveal(setting_bytes);
    match value {
        Some(v) => {
            put_u16(dst, id);
            put_u32(dst, v);
            assert(contents(*dst) =~= contents(*old(dst)) + setting_bytes(id as int, value));
        },
        None => {
            assert(contents(*dst) =~= contents(*old(dst)) + setting_bytes(id as int, value));
        },
    }
}

proof fn lemma_apply_one(acc: Settings, id: int, value: Option<u32>, rest: Seq<u8>)
    requires
        0 <= id < 0x1_0000,
        value matches Some(v) ==> apply_setting(acc, id, v) is Ok,
    ensures
        apply_settings(acc, setting_bytes(id, value) + rest) == apply_settings(
            match value {
                Some(v) => apply_setting(acc, id, v)->Ok_0,
                None => acc,
            },
            rest,
        ),
        setting_bytes(id, value).len() == if value is Some { 6int } else { 0 },
{
    reveal(setting_bytes);
    reveal(apply_settings);
    match value {
        Some(v) => {
            let s = setting_bytes(id, value) + rest;
            lemma_be16_round_trip(id);
            lemma_be32_round_trip(v as int);
            assert(s.skip(6) =~= rest);
            assert(s[0] == be16_bytes(id)[0]);
            assert(s[1] == be16_bytes(id)[1]);
            assert(s[2] == be32_bytes(v as int)[0]);
            assert(s[3] == be32_bytes(v as int)[1]);
            assert(s[4] == be32_bytes(v as int)[2]);
            assert(s[5] == be32_bytes(v as int)[3]);
        },
        None => {
            assert(setting_bytes(id, value) + rest =~= rest);
        },
    }
}

proof fn lemma_applied_wf(acc: Settings, payload: Seq<u8>)
    requires
        acc.wf(),
        !acc.ack,
    ensures
        apply_settings(acc, payload) matches Ok(s) ==> s.wf(),
    decreases payload.len(),
{
    reveal(apply_settings);
    reveal(apply_setting);
    if payload.len() >= 6 {
        if let Ok(next) = apply_setting(acc, be16(payload, 0), be32(payload, 2) as u32) {
            lemma_applied_wf(next, payload.skip(6));
        }
    }
}

/// Every setting that was read is in its range.
pub proof fn lemma_settings_wf(head: Head, payload: Seq<u8>)
    ensures
        settings_of(head, payload) matches Ok(s) ==> s.wf(),
{
    lemma_applied_wf(no_settings(), payload);
}

/// A SETTINGS frame that was written reads back as it was.
pub proof fn lemma_settings_round_trip(s: Settings)
    requires
        s.wf(),
    ensures
        settings_of(s.spec_head(), settings_payload(s)) == Ok::<Settings, Error>(s),
        settings_payload(s).len() <= 42,
{
    let p8 = setting_bytes(8, s.enable_connect_protocol);
    let p6 = setting_bytes(6, s.max_header_list_size) + p8;
    let p5 = setting_bytes(5, s.max_frame_size) + p6;
    let p4 = setting_bytes(4, s.initial_window_size) + p5;
    let p3 = setting_bytes(3, s.max_concurrent_streams) + p4;
    let p2 = setting_bytes(2, s.enable_push) + p3;
    let a0 = no_settings();
    let a1 = Settings { header_table_size: s.header_table_size, ..a0 };
    let a2 = Settings { enable_push: s.enable_push, ..a1 };
    let a3 = Settings { max_concurrent_streams: s.max_concurrent_streams, ..a2 };
    let a4 = Settings { initial_window_size: s.initial_window_size, ..a3 };
    let a5 = Settings { max_frame_size: s.max_frame_size, ..a4 };
    let a6 = Settings { max_header_list_size: s.max_header_list_size, ..a5 };
    assert(s.header_table_size matches Some(v) ==> apply_setting(a0, 1, v) == Ok::<Settings, Error>(
        a1,
    )) by {
        reveal(apply_setting);
    }
    lemma_apply_one(a0, 1, s.header_table_size, p2);
    assert(s.enable_push matches Some(v) ==> apply_setting(a1, 2, v) == Ok::<Settings, Error>(
        a2,
    )) by {
        reveal(apply_setting);
    }
    lemma_apply_one(a1, 2, s.enable_push, p3);
    assert(s.max_concurrent_streams matches Some(v) ==> apply_setting(a2, 3, v) == Ok::<
        Settings,
        Error,
    >(a3)) by {
        reveal(apply_setting);
    }
    lemma_apply_one(a2, 3, s.max_concurrent_streams, p4);
    assert(s.initial_window_size matches Some(v) ==> apply_setting(a3, 4, v) == Ok::<
        Settings,
        Error,
    >(a4)) by {
        reveal(apply_setting);
    }
    lemma_apply_one(a3, 4, s.initial_window_size, p5);
    assert(s.max_frame_size matches Some(v) ==> apply_setting(a4, 5, v) == Ok::<Settings, Error>(
        a5,
    )) by {
        reveal(apply_setting);
    }
    lemma_apply_one(a4, 5, s.max_frame_size, p6);
    assert(s.max_header_list_size matches Some(v) ==> apply_setting(a5, 6, v) == Ok::<
        Settings,
        Error,
    >(a6)) by {
        reveal(apply_setting);
    }
    lemma_apply_one(a5, 6, s.max_header_list_size, p8);
    let a8 = Settings { enable_connect_protocol: s.enable_connect_protocol, ..a6 };
    assert(s.enable_connect_protocol matches Some(v) ==> apply_setting(a6, 8, v) == Ok::<
        Settings,
        Error,
    >(a8)) by {
        reveal(apply_setting);
    }
    lemma_apply_one(a6, 8, s.enable_connect_protocol, Seq::empty());
    assert(p8 + Seq::<u8>::empty() =~= p8);
    assert(apply_settings(a8, Seq::empty()) == Ok::<Settings, Error>(a8)) by {
        reveal(apply_settings);
    }
    assert(!s.ack ==> a8 == s);
}

} // verus!
