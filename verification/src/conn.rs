//! Connection layer: error codes, SETTINGS, and one HTTP/2 server connection.
//!
//! Home of the two error scopes of RFC 9113 §5.4: a [`ConnectionError`] is
//! answered with GOAWAY and ends the connection, a [`StreamError`] with
//! RST_STREAM and the connection lives on.

pub mod engine;
pub mod exchange;
pub mod laws;
pub mod redact;
pub mod setting_id;
pub mod wire;

pub use crate::conn::engine::{Connection, ConnectionSummary, MAX_HEADER_BLOCK_BYTES, PREFACE};

use crate::flow::{CONNECTION_WINDOW, MAX_WINDOW_SIZE, STREAM_INITIAL_WINDOW};
use crate::frame::{Frame, FrameModel, DEFAULT_MAX_FRAME_SIZE, MAX_ALLOWED_FRAME_SIZE};
use crate::stream::StreamId;
use crate::text::{decimal, push_decimal};
use vstd::prelude::*;
use vstd::string::StringExecFns;

verus! {

/// How many streams a peer may have open or half-closed at once, advertised as
/// `SETTINGS_MAX_CONCURRENT_STREAMS` (§5.1.2).
pub const MAX_CONCURRENT_STREAMS: u32 = 256;

/// The largest decoded header list accepted, advertised as
/// `SETTINGS_MAX_HEADER_LIST_SIZE`.
pub const MAX_HEADER_LIST_SIZE: u32 = 65_536;

// ---------------------------------------------------------------------------
// Error codes and the two error scopes
// ---------------------------------------------------------------------------

/// HTTP/2 error codes (RFC 9113 §7), shared by GOAWAY and RST_STREAM.
#[derive(Clone, Copy, PartialEq, Eq, Debug, Structural)]
pub enum ErrorCode {
    NoError,
    ProtocolError,
    InternalError,
    FlowControlError,
    SettingsTimeout,
    StreamClosed,
    FrameSizeError,
    RefusedStream,
    Cancel,
    CompressionError,
    ConnectError,
    EnhanceYourCalm,
    InadequateSecurity,
    Http11Required,
}

impl ErrorCode {
    /// The wire value RFC 9113 §7 assigns to the code.
    pub open spec fn value(self) -> u32 {
        match self {
            ErrorCode::NoError => 0x0,
            ErrorCode::ProtocolError => 0x1,
            ErrorCode::InternalError => 0x2,
            ErrorCode::FlowControlError => 0x3,
            ErrorCode::SettingsTimeout => 0x4,
            ErrorCode::StreamClosed => 0x5,
            ErrorCode::FrameSizeError => 0x6,
            ErrorCode::RefusedStream => 0x7,
            ErrorCode::Cancel => 0x8,
            ErrorCode::CompressionError => 0x9,
            ErrorCode::ConnectError => 0xa,
            ErrorCode::EnhanceYourCalm => 0xb,
            ErrorCode::InadequateSecurity => 0xc,
            ErrorCode::Http11Required => 0xd,
        }
    }

    /// The code a wire value stands for: the one with that value, and
    /// `InternalError` for a value no code has.
    pub open spec fn from_value(v: u32) -> ErrorCode {
        if exists|c: ErrorCode| c.value() == v {
            choose|c: ErrorCode| c.value() == v
        } else {
            ErrorCode::InternalError
        }
    }

    /// The on-wire 32-bit value.
    pub fn as_u32(self) -> (v: u32)
        ensures
            v == self.value(),
    {
        match self {
            ErrorCode::NoError => 0x0,
            ErrorCode::ProtocolError => 0x1,
            ErrorCode::InternalError => 0x2,
            ErrorCode::FlowControlError => 0x3,
            ErrorCode::SettingsTimeout => 0x4,
            ErrorCode::StreamClosed => 0x5,
            ErrorCode::FrameSizeError => 0x6,
            ErrorCode::RefusedStream => 0x7,
            ErrorCode::Cancel => 0x8,
            ErrorCode::CompressionError => 0x9,
            ErrorCode::ConnectError => 0xa,
            ErrorCode::EnhanceYourCalm => 0xb,
            ErrorCode::InadequateSecurity => 0xc,
            ErrorCode::Http11Required => 0xd,
        }
    }

    /// Decodes a wire value. Unknown codes are treated as `INTERNAL_ERROR`, as
    /// RFC 9113 §7 permits.
    pub fn from_u32(v: u32) -> (c: ErrorCode)
        ensures
            c == ErrorCode::from_value(v),
            c.value() == v || (c == ErrorCode::InternalError && v > 0xd),
    {
        let c = match v {
            0x0 => ErrorCode::NoError,
            0x1 => ErrorCode::ProtocolError,
            0x2 => ErrorCode::InternalError,
            0x3 => ErrorCode::FlowControlError,
            0x4 => ErrorCode::SettingsTimeout,
            0x5 => ErrorCode::StreamClosed,
            0x6 => ErrorCode::FrameSizeError,
            0x7 => ErrorCode::RefusedStream,
            0x8 => ErrorCode::Cancel,
            0x9 => ErrorCode::CompressionError,
            0xa => ErrorCode::ConnectError,
            0xb => ErrorCode::EnhanceYourCalm,
            0xc => ErrorCode::InadequateSecurity,
            0xd => ErrorCode::Http11Required,
            _ => ErrorCode::InternalError,
        };
        proof {
            if v <= 0xd {
                assert(c.value() == v);
                ErrorCode::lemma_value_injective(ErrorCode::from_value(v), c);
            }
        }
        c
    }

    /// No two codes share a wire value.
    pub proof fn lemma_value_injective(a: ErrorCode, b: ErrorCode)
        ensures
            a.value() == b.value() ==> a == b,
            a.value() <= 0xd,
    {
    }

    /// Decoding a code's wire value gives the code back.
    pub proof fn wire_round_trip(c: ErrorCode)
        ensures
            ErrorCode::from_value(c.value()) == c,
    {
        ErrorCode::lemma_value_injective(ErrorCode::from_value(c.value()), c);
    }
}

/// What a connection error says: its code and its debug text.
#[verifier::ext_equal]
pub struct Fault {
    pub code: ErrorCode,
    pub debug: Seq<char>,
}

/// A fault with the given code and text.
pub open spec fn fault(code: ErrorCode, debug: Seq<char>) -> Fault {
    Fault { code, debug }
}

/// A connection-level error (RFC 9113 §5.4.1): unrecoverable, so the endpoint
/// emits GOAWAY with `code` and closes. `debug` becomes the GOAWAY debug data.
#[derive(Clone, Debug)]
pub struct ConnectionError {
    pub code: ErrorCode,
    pub debug: String,
}

impl View for ConnectionError {
    type V = Fault;

    open spec fn view(&self) -> Fault {
        Fault { code: self.code, debug: self.debug@ }
    }
}

impl ConnectionError {
    pub fn new(code: ErrorCode, debug: String) -> (e: Self)
        ensures
            e@ == fault(code, debug@),
    {
        ConnectionError { code, debug }
    }

    /// An error whose debug text is a fixed string.
    pub fn with_text(code: ErrorCode, debug: &str) -> (e: Self)
        ensures
            e@ == fault(code, debug@),
    {
        ConnectionError { code, debug: String::from_str(debug) }
    }
}

/// A stream-level error (RFC 9113 §5.4.2): only `stream` is aborted, via
/// RST_STREAM with `code`; the connection survives.
#[derive(Clone, Copy, PartialEq, Eq, Debug, Structural)]
pub struct StreamError {
    pub stream: StreamId,
    pub code: ErrorCode,
}

impl StreamError {
    pub fn new(stream: StreamId, code: ErrorCode) -> (e: Self)
        ensures
            e.stream == stream,
            e.code == code,
    {
        StreamError { stream, code }
    }
}

// ---------------------------------------------------------------------------
// SETTINGS
// ---------------------------------------------------------------------------

/// The connection SETTINGS in effect (RFC 9113 §6.5.2). `None` on the optional
/// fields means "no limit advertised".
#[derive(Clone, Copy, PartialEq, Eq, Debug, Structural)]
pub struct Settings {
    pub header_table_size: u32,
    pub enable_push: bool,
    pub max_concurrent_streams: Option<u32>,
    pub initial_window_size: u32,
    pub max_frame_size: u32,
    pub max_header_list_size: Option<u32>,
}

/// The protocol defaults of RFC 9113 §6.5.2.
pub open spec fn default_settings() -> Settings {
    Settings {
        header_table_size: 4096,
        enable_push: true,
        max_concurrent_streams: None,
        initial_window_size: 65_535,
        max_frame_size: 16_384,
        max_header_list_size: None,
    }
}

/// What one SETTINGS parameter does to the settings, or the fault it is
/// answered with (§6.5.2). An unknown identifier changes nothing (§6.5.3).
pub open spec fn setting_applied(s: Settings, param: (u16, u32)) -> Result<Settings, Fault> {
    let (id, value) = param;
    if id == setting_id::HEADER_TABLE_SIZE {
        Ok(Settings { header_table_size: value, ..s })
    } else if id == setting_id::ENABLE_PUSH {
        if value > 1 {
            Err(
                fault(
                    ErrorCode::ProtocolError,
                    "ENABLE_PUSH must be 0 or 1, got "@ + decimal(value as nat),
                ),
            )
        } else {
            Ok(Settings { enable_push: value == 1, ..s })
        }
    } else if id == setting_id::MAX_CONCURRENT_STREAMS {
        Ok(Settings { max_concurrent_streams: Some(value), ..s })
    } else if id == setting_id::INITIAL_WINDOW_SIZE {
        if value > MAX_WINDOW_SIZE {
            Err(
                fault(
                    ErrorCode::FlowControlError,
                    "INITIAL_WINDOW_SIZE "@ + decimal(value as nat) + " exceeds 2147483647"@,
                ),
            )
        } else {
            Ok(Settings { initial_window_size: value, ..s })
        }
    } else if id == setting_id::MAX_FRAME_SIZE {
        if value < DEFAULT_MAX_FRAME_SIZE || value > MAX_ALLOWED_FRAME_SIZE {
            Err(
                fault(
                    ErrorCode::ProtocolError,
                    "MAX_FRAME_SIZE "@ + decimal(value as nat) + " outside [16384, 16777215]"@,
                ),
            )
        } else {
            Ok(Settings { max_frame_size: value, ..s })
        }
    } else if id == setting_id::MAX_HEADER_LIST_SIZE {
        Ok(Settings { max_header_list_size: Some(value), ..s })
    } else {
        Ok(s)
    }
}

/// What a list of parameters does, taken in order: the settings reached, and
/// the fault of the first illegal parameter, which ends the fold.
pub open spec fn settings_applied(s: Settings, params: Seq<(u16, u32)>) -> (Settings, Option<Fault>)
    decreases params.len(),
{
    if params.len() == 0 {
        (s, None)
    } else {
        match setting_applied(s, params[0]) {
            Ok(t) => settings_applied(t, params.drop_first()),
            Err(f) => (s, Some(f)),
        }
    }
}

/// The parameters a SETTINGS frame carries to advertise `s`: `ENABLE_PUSH`
/// always, every other one where it differs from the protocol default.
pub open spec fn advertised(s: Settings) -> Seq<(u16, u32)> {
    let d = default_settings();
    let push: u32 = if s.enable_push { 1 } else { 0 };
    seq![(setting_id::ENABLE_PUSH, push)] + when(
        s.header_table_size != d.header_table_size,
        (setting_id::HEADER_TABLE_SIZE, s.header_table_size),
    ) + when(
        s.max_concurrent_streams is Some,
        (setting_id::MAX_CONCURRENT_STREAMS, s.max_concurrent_streams->0),
    ) + when(
        s.initial_window_size != d.initial_window_size,
        (setting_id::INITIAL_WINDOW_SIZE, s.initial_window_size),
    ) + when(
        s.max_frame_size != d.max_frame_size,
        (setting_id::MAX_FRAME_SIZE, s.max_frame_size),
    ) + when(
        s.max_header_list_size is Some,
        (setting_id::MAX_HEADER_LIST_SIZE, s.max_header_list_size->0),
    )
}

/// The one parameter, or none.
pub open spec fn when(wanted: bool, param: (u16, u32)) -> Seq<(u16, u32)> {
    if wanted {
        seq![param]
    } else {
        Seq::empty()
    }
}

impl Default for Settings {
    /// The protocol defaults, in force until the peer's first SETTINGS frame.
    fn default() -> (s: Self)
        ensures
            s == default_settings(),
    {
        Settings {
            header_table_size: 4096,
            enable_push: true,
            max_concurrent_streams: None,
            initial_window_size: 65_535,
            max_frame_size: 16_384,
            max_header_list_size: None,
        }
    }
}

impl Settings {
    /// The settings this proxy advertises: protocol defaults with push turned
    /// off, a bound on the decoded header list, a concurrency cap, and a raised
    /// per-stream receive window.
    pub fn server() -> (s: Self)
        ensures
            s == (Settings {
                enable_push: false,
                max_concurrent_streams: Some(MAX_CONCURRENT_STREAMS),
                initial_window_size: STREAM_INITIAL_WINDOW as u32,
                max_header_list_size: Some(MAX_HEADER_LIST_SIZE),
                ..default_settings()
            }),
    {
        Settings {
            enable_push: false,
            max_concurrent_streams: Some(MAX_CONCURRENT_STREAMS),
            initial_window_size: STREAM_INITIAL_WINDOW as u32,
            max_header_list_size: Some(MAX_HEADER_LIST_SIZE),
            ..Settings::default()
        }
    }

    /// Folds a received SETTINGS payload into these settings, validating each
    /// parameter's legal range. Parameters before an illegal one stay applied.
    pub fn apply(&mut self, params: &[(u16, u32)]) -> (r: Result<(), ConnectionError>)
        ensures
            *final(self) == settings_applied(*old(self), params@).0,
            match r {
                Ok(()) => settings_applied(*old(self), params@).1 is None,
                Err(e) => settings_applied(*old(self), params@).1 == Some(e@),
            },
    {
        let mut i: usize = 0;
        assert(params@.skip(0) =~= params@);
        while i < params.len()
            invariant
                i <= params@.len(),
                settings_applied(*old(self), params@) == settings_applied(
                    *self,
                    params@.skip(i as int),
                ),
            decreases params@.len() - i,
        {
            let (id, value) = params[i];
            assert(params@.skip(i as int)[0] == params@[i as int]);
            assert(params@.skip(i as int).drop_first() =~= params@.skip(i + 1));
            if id == setting_id::HEADER_TABLE_SIZE {
                self.header_table_size = value;
            } else if id == setting_id::ENABLE_PUSH {
                if value > 1 {
                    let mut text = String::from_str("ENABLE_PUSH must be 0 or 1, got ");
                    push_decimal(&mut text, value as u64);
                    return Err(ConnectionError::new(ErrorCode::ProtocolError, text));
                }
                self.enable_push = value == 1;
            } else if id == setting_id::MAX_CONCURRENT_STREAMS {
                self.max_concurrent_streams = Some(value);
            } else if id == setting_id::INITIAL_WINDOW_SIZE {
                if value > MAX_WINDOW_SIZE as u32 {
                    let mut text = String::from_str("INITIAL_WINDOW_SIZE ");
                    push_decimal(&mut text, value as u64);
                    text.append(" exceeds 2147483647");
                    return Err(ConnectionError::new(ErrorCode::FlowControlError, text));
                }
                self.initial_window_size = value;
            } else if id == setting_id::MAX_FRAME_SIZE {
                if value < DEFAULT_MAX_FRAME_SIZE || value > MAX_ALLOWED_FRAME_SIZE {
                    let mut text = String::from_str("MAX_FRAME_SIZE ");
                    push_decimal(&mut text, value as u64);
                    text.append(" outside [16384, 16777215]");
                    return Err(ConnectionError::new(ErrorCode::ProtocolError, text));
                }
                self.max_frame_size = value;
            } else if id == setting_id::MAX_HEADER_LIST_SIZE {
                self.max_header_list_size = Some(value);
            }
            i += 1;
        }
        assert(params@.skip(i as int) =~= Seq::empty());
        Ok(())
    }

    /// The SETTINGS frame that advertises these values.
    pub fn to_frame(&self) -> (f: Frame)
        ensures
            f@ == (FrameModel::Settings { ack: false, params: advertised(*self) }),
    {
        let defaults = Settings::default();
        let push: u32 = if self.enable_push {
            1
        } else {
            0
        };
        let mut params: Vec<(u16, u32)> = Vec::new();
        params.push((setting_id::ENABLE_PUSH, push));
        if self.header_table_size != defaults.header_table_size {
            params.push((setting_id::HEADER_TABLE_SIZE, self.header_table_size));
        }
        if let Some(max) = self.max_concurrent_streams {
            params.push((setting_id::MAX_CONCURRENT_STREAMS, max));
        }
        if self.initial_window_size != defaults.initial_window_size {
            params.push((setting_id::INITIAL_WINDOW_SIZE, self.initial_window_size));
        }
        if self.max_frame_size != defaults.max_frame_size {
            params.push((setting_id::MAX_FRAME_SIZE, self.max_frame_size));
        }
        if let Some(max) = self.max_header_list_size {
            params.push((setting_id::MAX_HEADER_LIST_SIZE, max));
        }
        assert(params@ =~= advertised(*self));
        Frame::Settings { ack: false, params }
    }
}

/// The sizes a deployment may tune: how much each connection may hold in
/// flight, and how many streams a client connection may have live.
#[derive(Clone, Copy, PartialEq, Eq, Debug, Structural)]
pub struct Tuning {
    /// The connection-level receive window.
    pub connection_window: i32,
    /// The receive window a new stream starts with.
    pub stream_window: i32,
    /// The concurrency limit we advertise to clients.
    pub max_concurrent_streams: u32,
}

/// The sizes of a deployment that tuned nothing.
pub open spec fn default_tuning() -> Tuning {
    Tuning {
        connection_window: CONNECTION_WINDOW,
        stream_window: STREAM_INITIAL_WINDOW,
        max_concurrent_streams: MAX_CONCURRENT_STREAMS,
    }
}

impl Default for Tuning {
    fn default() -> (t: Self)
        ensures
            t == default_tuning(),
    {
        Tuning {
            connection_window: CONNECTION_WINDOW,
            stream_window: STREAM_INITIAL_WINDOW,
            max_concurrent_streams: MAX_CONCURRENT_STREAMS,
        }
    }
}

/// What we advertise as a client: no push, our stream window, and a bound on
/// the decoded header list. The limit on streams is the backend's to set.
pub open spec fn client_settings_of(t: Tuning) -> Settings {
    Settings {
        enable_push: false,
        initial_window_size: if t.stream_window > 0 {
            t.stream_window as u32
        } else {
            0
        },
        max_header_list_size: Some(MAX_HEADER_LIST_SIZE),
        ..default_settings()
    }
}

impl Tuning {
    /// The settings to advertise to a backend.
    pub fn client_settings(&self) -> (s: Settings)
        ensures
            s == client_settings_of(*self),
    {
        let initial_window_size: u32 = if self.stream_window > 0 {
            self.stream_window as u32
        } else {
            0
        };
        Settings {
            enable_push: false,
            initial_window_size,
            max_header_list_size: Some(MAX_HEADER_LIST_SIZE),
            ..Settings::default()
        }
    }
}

// ---------------------------------------------------------------------------
// Laws
// ---------------------------------------------------------------------------

/// Settings that are accepted never leave a window larger than there is.
pub proof fn lemma_window_setting(s: Settings, params: Seq<(u16, u32)>)
    requires
        s.initial_window_size <= 0x7fff_ffff,
    ensures
        settings_applied(s, params).0.initial_window_size <= 0x7fff_ffff,
    decreases params.len(),
{
    if params.len() > 0 {
        if let Ok(t) = setting_applied(s, params[0]) {
            lemma_window_setting(t, params.drop_first());
        }
    }
}

/// The last value of a parameter is the one that counts, and a parameter that is
/// not there changes nothing: what the `k`-th entry says holds afterwards, unless
/// a later one says otherwise.
pub proof fn the_last_value_of_a_setting_counts(s: Settings, params: Seq<(u16, u32)>, k: int)
    requires
        settings_applied(s, params).1 is None,
    ensures
        ({
            let t = settings_applied(s, params).0;
            let last = 0 <= k < params.len() && forall|j: int|
                k < j < params.len() ==> (#[trigger] params[j]).0 != params[k].0;
            let v = params[k].1;
            &&& last && params[k].0 == 1 ==> t.header_table_size == v
            &&& last && params[k].0 == 2 ==> v <= 1 && t.enable_push == (v == 1)
            &&& last && params[k].0 == 3 ==> t.max_concurrent_streams == Some(v)
            &&& last && params[k].0 == 4 ==> v <= 0x7fff_ffff && t.initial_window_size == v
            &&& last && params[k].0 == 5 ==> 16_384 <= v <= 16_777_215 && t.max_frame_size == v
            &&& last && params[k].0 == 6 ==> t.max_header_list_size == Some(v)
            &&& absent(params, 1) ==> t.header_table_size == s.header_table_size
            &&& absent(params, 2) ==> t.enable_push == s.enable_push
            &&& absent(params, 3) ==> t.max_concurrent_streams == s.max_concurrent_streams
            &&& absent(params, 4) ==> t.initial_window_size == s.initial_window_size
            &&& absent(params, 5) ==> t.max_frame_size == s.max_frame_size
            &&& absent(params, 6) ==> t.max_header_list_size == s.max_header_list_size
        }),
    decreases params.len(),
{
    if params.len() > 0 {
        let rest = params.drop_first();
        let t = setting_applied(s, params[0])->Ok_0;
        the_last_value_of_a_setting_counts(t, rest, k - 1);
        assert forall|id: u16| #[trigger] absent(params, id) implies absent(rest, id)
            && params[0].0 != id by {
            assert forall|j: int| 0 <= j < rest.len() implies (#[trigger] rest[j]).0 != id by {
                assert(rest[j] == params[j + 1]);
            }
            assert(params[0].0 != id);
        }
        if 0 <= k < params.len() && (forall|j: int|
            k < j < params.len() ==> (#[trigger] params[j]).0 != params[k].0) {
            assert forall|j: int| k - 1 < j < rest.len() implies (#[trigger] rest[j]).0
                != params[k].0 by {
                assert(rest[j] == params[j + 1]);
            }
            if k == 0 {
                assert(absent(rest, params[0].0));
            } else {
                assert(rest[k - 1] == params[k]);
            }
        }
    }
}

/// A parameter that is not among some.
pub open spec fn absent(params: Seq<(u16, u32)>, id: u16) -> bool {
    forall|j: int| 0 <= j < params.len() ==> (#[trigger] params[j]).0 != id
}

/// What we advertise says all of it: a peer that starts from the defaults and
/// applies it has our settings.
pub proof fn what_is_advertised_says_all(s: Settings)
    requires
        s.initial_window_size <= 0x7fff_ffff,
        16_384 <= s.max_frame_size <= 16_777_215,
    ensures
        settings_applied(default_settings(), advertised(s)) == (s, None::<Fault>),
{
    let params = advertised(s);
    lemma_advertised_accepted(default_settings(), params);
    lemma_advertised_values(s);
}

proof fn lemma_advertised_accepted(s: Settings, params: Seq<(u16, u32)>)
    requires
        forall|i: int| 0 <= i < params.len() ==> setting_applied(s, #[trigger] params[i]) is Ok,
    ensures
        settings_applied(s, params).1 is None,
    decreases params.len(),
{
    if params.len() > 0 {
        let t = setting_applied(s, params[0])->Ok_0;
        let rest = params.drop_first();
        assert forall|i: int| 0 <= i < rest.len() implies setting_applied(
            t,
            #[trigger] rest[i],
        ) is Ok by {
            assert(rest[i] == params[i + 1]);
            assert(setting_applied(s, params[i + 1]) is Ok);
        }
        lemma_advertised_accepted(t, rest);
    }
}

proof fn lemma_advertised_values(s: Settings)
    requires
        settings_applied(default_settings(), advertised(s)).1 is None,
    ensures
        settings_applied(default_settings(), advertised(s)).0 == s,
{
    let params = advertised(s);
    let d = default_settings();
    let t = settings_applied(d, params).0;
    assert forall|k: int| 0 <= k < params.len() implies forall|j: int|
        k < j < params.len() ==> (#[trigger] params[j]).0 != (#[trigger] params[k]).0 by {}
    assert forall|k: int| #![trigger params[k]] 0 <= k < params.len() implies {
        let v = params[k].1;
        &&& params[k].0 == 1 ==> t.header_table_size == v
        &&& params[k].0 == 2 ==> t.enable_push == (v == 1)
        &&& params[k].0 == 3 ==> t.max_concurrent_streams == Some(v)
        &&& params[k].0 == 4 ==> t.initial_window_size == v
        &&& params[k].0 == 5 ==> t.max_frame_size == v
        &&& params[k].0 == 6 ==> t.max_header_list_size == Some(v)
    } by {
        the_last_value_of_a_setting_counts(d, params, k);
    }
    the_last_value_of_a_setting_counts(d, params, 0);
    let n1 = 1 + when(s.header_table_size != d.header_table_size, (1u16, s.header_table_size)).len();
    let n2 = n1 + when(s.max_concurrent_streams is Some, (3u16, 0u32)).len();
    let n3 = n2 + when(s.initial_window_size != d.initial_window_size, (4u16, 0u32)).len();
    let n4 = n3 + when(s.max_frame_size != d.max_frame_size, (5u16, 0u32)).len();
    assert(params[0].0 == 2);
    assert(s.header_table_size != d.header_table_size ==> params[1] == (1u16, s.header_table_size));
    assert(s.max_concurrent_streams is Some ==> params[n1 as int] == (
        3u16,
        s.max_concurrent_streams->0,
    ));
    assert(s.initial_window_size != d.initial_window_size ==> params[n2 as int] == (
        4u16,
        s.initial_window_size,
    ));
    assert(s.max_frame_size != d.max_frame_size ==> params[n3 as int] == (5u16, s.max_frame_size));
    assert(s.max_header_list_size is Some ==> params[n4 as int] == (
        6u16,
        s.max_header_list_size->0,
    ));
    assert(s.header_table_size == d.header_table_size ==> absent(params, 1));
    assert(s.max_concurrent_streams is None ==> absent(params, 3));
    assert(s.initial_window_size == d.initial_window_size ==> absent(params, 4));
    assert(s.max_frame_size == d.max_frame_size ==> absent(params, 5));
    assert(s.max_header_list_size is None ==> absent(params, 6));
}

/// Error codes have the numbers that RFC 9113 gives them, and a number that it
/// gives to none is an internal error.
pub proof fn error_codes_have_their_numbers(v: u32)
    ensures
        ErrorCode::from_value(0) == ErrorCode::NoError,
        ErrorCode::from_value(1) == ErrorCode::ProtocolError,
        ErrorCode::from_value(2) == ErrorCode::InternalError,
        ErrorCode::from_value(3) == ErrorCode::FlowControlError,
        ErrorCode::from_value(4) == ErrorCode::SettingsTimeout,
        ErrorCode::from_value(5) == ErrorCode::StreamClosed,
        ErrorCode::from_value(6) == ErrorCode::FrameSizeError,
        ErrorCode::from_value(7) == ErrorCode::RefusedStream,
        ErrorCode::from_value(8) == ErrorCode::Cancel,
        ErrorCode::from_value(9) == ErrorCode::CompressionError,
        ErrorCode::from_value(10) == ErrorCode::ConnectError,
        ErrorCode::from_value(11) == ErrorCode::EnhanceYourCalm,
        ErrorCode::from_value(12) == ErrorCode::InadequateSecurity,
        ErrorCode::from_value(13) == ErrorCode::Http11Required,
        v < 14 ==> ErrorCode::from_value(v).value() == v,
        v >= 14 ==> ErrorCode::from_value(v) == ErrorCode::InternalError,
{
    assert(ErrorCode::NoError.value() == 0 && ErrorCode::ProtocolError.value() == 1
        && ErrorCode::InternalError.value() == 2 && ErrorCode::FlowControlError.value() == 3
        && ErrorCode::SettingsTimeout.value() == 4 && ErrorCode::StreamClosed.value() == 5
        && ErrorCode::FrameSizeError.value() == 6 && ErrorCode::RefusedStream.value() == 7
        && ErrorCode::Cancel.value() == 8 && ErrorCode::CompressionError.value() == 9
        && ErrorCode::ConnectError.value() == 10 && ErrorCode::EnhanceYourCalm.value() == 11
        && ErrorCode::InadequateSecurity.value() == 12 && ErrorCode::Http11Required.value() == 13);
}

} // verus!
