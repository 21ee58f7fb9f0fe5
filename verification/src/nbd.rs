//! The network block device protocol: the messages, and the server's side of a
//! connection as a state machine.
use std::sync::Arc;
use vstd::prelude::*;
use vstd::utf8::{decode_utf8, valid_utf8};

use crate::wire::{be_bytes, be_value};

verus! {

pub const NBD_MAGIC: u64 = 0x4e42_444d_4147_4943;

pub const IHAVEOPT: u64 = 0x4948_4156_454f_5054;

pub const OPTION_REPLY_MAGIC: u64 = 0x0003_e889_0455_65a9;

pub const REQ_MAGIC: u32 = 0x2560_9513;

pub const REP_MAGIC: u32 = 0x6744_6698;

pub const HANDSHAKE_FIXED_NEWSTYLE: u16 = 1;

pub const HANDSHAKE_NO_ZEROES: u16 = 2;

pub const TRANSMISSION_HAS_FLAGS: u16 = 1;

pub const TRANSMISSION_SEND_FLUSH: u16 = 4;

pub const TRANSMISSION_SEND_TRIM: u16 = 32;

pub const TRANSMISSION_SEND_WRITE_ZEROES: u16 = 64;

pub const OPT_EXPORT_NAME: u32 = 1;

pub const OPT_ABORT: u32 = 2;

pub const OPT_GO: u32 = 7;

pub const OPT_STRUCTURED_REPLY: u32 = 8;

pub const OPT_REP_ACK: u32 = 1;

pub const OPT_REP_INFO: u32 = 3;

pub const OPT_REP_ERR_UNSUP: u32 = 0x8000_0001;

pub const OPT_REP_ERR_INVALID: u32 = 0x8000_0003;

pub const INFO_EXPORT: u16 = 0;

pub const CMD_READ: u16 = 0;

pub const CMD_WRITE: u16 = 1;

pub const CMD_DISC: u16 = 2;

pub const CMD_FLUSH: u16 = 3;

pub const CMD_TRIM: u16 = 4;

pub const CMD_WRITE_ZEROES: u16 = 6;

pub const ERR_UNSUPPORTED: u32 = 95;

pub const ERR_INVALID: u32 = 22;

/// How many bytes of a refused write are read at a time.
pub const DISCARD_CHUNK: usize = 8192;

/// How many zeros follow the export's size and flags.
pub const EXPORT_PADDING: usize = 124;

/// What a server listens on and exports.
#[derive(Debug, PartialEq, Eq)]
pub struct NbdServerOptions {
    pub bind: String,
    pub export_name: String,
    pub device_size: u64,
    pub logical_block_size: u32,
    pub max_inflight: usize,
}

impl Clone for NbdServerOptions {
    fn clone(&self) -> (copy: Self)
        ensures
            copy == *self,
    {
        NbdServerOptions {
            bind: self.bind.clone(),
            export_name: self.export_name.clone(),
            device_size: self.device_size,
            logical_block_size: self.logical_block_size,
            max_inflight: self.max_inflight,
        }
    }
}

impl Default for NbdServerOptions {
    fn default() -> (options: Self)
        ensures
            options.bind@ == "127.0.0.1:10809"@,
            options.export_name@ == "tgdrive"@,
            options.device_size == 67_108_864,
            options.logical_block_size == 4096,
            options.max_inflight == 64,
    {
        NbdServerOptions {
            bind: "127.0.0.1:10809".to_owned(),
            export_name: "tgdrive".to_owned(),
            device_size: 67_108_864,
            logical_block_size: 4096,
            max_inflight: 64,
        }
    }
}

/// A backend, exported under the given options.
#[derive(Debug)]
pub struct NbdExport<B> {
    pub options: NbdServerOptions,
    pub backend: Arc<B>,
}

impl<B> NbdExport<B> {
    /// Exports the backend under the given options.
    pub fn new(options: NbdServerOptions, backend: Arc<B>) -> (export: Self)
        ensures
            export.options == options,
            export.backend == backend,
    {
        NbdExport { options, backend }
    }

    /// How many requests of a connection may be in progress: at least one.
    pub fn inflight_limit(&self) -> (limit: usize)
        ensures
            limit == if self.options.max_inflight == 0 {
                1
            } else {
                self.options.max_inflight
            },
    {
        if self.options.max_inflight == 0 {
            1
        } else {
            self.options.max_inflight
        }
    }
}

/// What a byte string reads as text, with replacement characters where it is not valid
/// UTF-8.
pub uninterp spec fn lossy_text(bytes: Seq<u8>) -> Seq<char>;

/// Calls `String::from_utf8_lossy`. Claimed of it: the text is a function of the bytes
/// alone, named `lossy_text` here; of bytes that are valid UTF-8 it is the text that
/// they encode.
#[verifier::external_body]
pub(crate) fn text_lossy(bytes: &[u8]) -> (text: String)
    ensures
        text@ == lossy_text(bytes@),
        valid_utf8(bytes@) ==> text@ == decode_utf8(bytes@),
{
    String::from_utf8_lossy(bytes).into_owned()
}

/// Why a connection ends with an error.
#[derive(Debug, Clone, Copy, PartialEq, Eq, Structural)]
pub enum NbdError {
    InvalidOptionMagic,
    InvalidRequestMagic,
    UnknownExport,
    ClientAborted,
    /// The client closed the connection in the middle of a message.
    UnexpectedEof,
    /// The backend failed.
    Backend,
    /// What was handed in is not what was waited for.
    UnexpectedEvent,
}

/// A request of the client.
#[derive(Debug, Clone, Copy, PartialEq, Eq, Structural)]
pub struct Request {
    pub command: u16,
    pub handle: u64,
    pub offset: u64,
    pub length: u32,
}

/// What the server waits for.
#[derive(Debug, PartialEq, Eq)]
pub enum NbdState {
    /// The client's handshake flags.
    ClientFlags,
    /// The magic number in front of an option.
    OptionMagic,
    /// An option's number and the length of its data.
    OptionHeader,
    /// The data of an option.
    OptionData { option: u32, length: u32 },
    /// The magic number in front of a request.
    RequestMagic,
    /// A request.
    RequestHeader,
    /// The data of a write.
    WriteData { request: Request },
    /// Data of a refused write; `remaining` bytes of it are still to come.
    Discard { handle: u64, remaining: u32 },
    /// The backend's answer to a read.
    Reading { request: Request },
    /// The backend's answer to a write.
    Writing { request: Request },
    /// The backend's answer to a flush that the client asked for.
    Flushing { request: Request },
    /// The backend's answer to the flush before the connection ends.
    Closing,
}

/// What the server does next.
#[derive(Debug, PartialEq, Eq)]
pub enum NbdNext {
    /// Read so many bytes from the client.
    Receive { count: usize, state: NbdState },
    /// Read from the backend.
    ReadBackend { offset: u64, len: usize, state: NbdState },
    /// Write to the backend.
    WriteBackend { offset: u64, bytes: Vec<u8>, state: NbdState },
    /// Flush the backend.
    FlushBackend { state: NbdState },
    /// End the connection.
    Close,
    /// End the connection with an error.
    Fail { error: NbdError },
}

/// The value of an [`NbdNext`].
#[verifier::ext_equal]
pub enum NbdNextView {
    Receive { count: int, state: NbdState },
    ReadBackend { offset: u64, len: int, state: NbdState },
    WriteBackend { offset: u64, bytes: Seq<u8>, state: NbdState },
    FlushBackend { state: NbdState },
    Close,
    Fail { error: NbdError },
}

impl View for NbdNext {
    type V = NbdNextView;

    open spec fn view(&self) -> NbdNextView {
        match self {
            NbdNext::Receive { count, state } => NbdNextView::Receive {
                count: *count as int,
                state: *state,
            },
            NbdNext::ReadBackend { offset, len, state } => NbdNextView::ReadBackend {
                offset: *offset,
                len: *len as int,
                state: *state,
            },
            NbdNext::WriteBackend { offset, bytes, state } => NbdNextView::WriteBackend {
                offset: *offset,
                bytes: bytes@,
                state: *state,
            },
            NbdNext::FlushBackend { state } => NbdNextView::FlushBackend { state: *state },
            NbdNext::Close => NbdNextView::Close,
            NbdNext::Fail { error } => NbdNextView::Fail { error: *error },
        }
    }
}

/// One step of the server: the bytes to send to the client first, and what to do next.
#[derive(Debug, PartialEq, Eq)]
pub struct NbdStep {
    pub send: Vec<u8>,
    pub next: NbdNext,
}

/// The value of an [`NbdStep`].
#[verifier::ext_equal]
pub struct NbdStepView {
    pub send: Seq<u8>,
    pub next: NbdNextView,
}

impl View for NbdStep {
    type V = NbdStepView;

    open spec fn view(&self) -> NbdStepView {
        NbdStepView { send: self.send@, next: self.next@ }
    }
}

/// What happens to the server.
#[derive(Debug, PartialEq, Eq)]
pub enum NbdEvent {
    /// The bytes that were waited for.
    Received { bytes: Vec<u8> },
    /// The client closed the connection before all bytes came.
    Eof,
    /// The backend's data.
    Data { bytes: Vec<u8> },
    /// The backend is done.
    Done,
    /// The backend failed.
    Failed,
}

/// The value of an [`NbdEvent`].
#[verifier::ext_equal]
pub enum NbdEventView {
    Received { bytes: Seq<u8> },
    Eof,
    Data { bytes: Seq<u8> },
    Done,
    Failed,
}

impl View for NbdEvent {
    type V = NbdEventView;

    open spec fn view(&self) -> NbdEventView {
        match self {
            NbdEvent::Received { bytes } => NbdEventView::Received { bytes: bytes@ },
            NbdEvent::Eof => NbdEventView::Eof,
            NbdEvent::Data { bytes } => NbdEventView::Data { bytes: bytes@ },
            NbdEvent::Done => NbdEventView::Done,
            NbdEvent::Failed => NbdEventView::Failed,
        }
    }
}

/// What the export offers: flags at all, flush, trim and writing zeros.
pub open spec fn offered_flags() -> u16 {
    101
}

/// The flags of the export.
pub fn transmission_flags() -> (flags: u16)
    ensures
        flags == offered_flags(),
{
    assert(1u16 | 4u16 | 32u16 | 64u16 == 101u16) by (bit_vector);
    TRANSMISSION_HAS_FLAGS | TRANSMISSION_SEND_FLUSH | TRANSMISSION_SEND_TRIM
        | TRANSMISSION_SEND_WRITE_ZEROES
}

/// The range lies within the device.
pub open spec fn in_bounds(device_size: u64, offset: u64, len: u32) -> bool {
    offset + len <= device_size
}

/// Tells whether a range lies within the device.
pub fn bounds_ok(device_size: u64, offset: u64, len: u32) -> (ok: bool)
    ensures
        ok == in_bounds(device_size, offset, len),
{
    match offset.checked_add(len as u64) {
        Some(end) => end <= device_size,
        None => false,
    }
}

/// What the server sends first: both magic numbers, and the handshake flags for the
/// fixed protocol and for leaving out zeros.
pub open spec fn greeting() -> Seq<u8> {
    be_bytes(NBD_MAGIC as nat, 8) + be_bytes(IHAVEOPT as nat, 8) + be_bytes(3, 2)
}

/// The size and flags of the export.
pub open spec fn export_info(device_size: u64) -> Seq<u8> {
    be_bytes(device_size as nat, 8) + be_bytes(offered_flags() as nat, 2)
}

/// A run of zeros.
pub open spec fn zero_run(count: int) -> Seq<u8> {
    Seq::new(count as nat, |i: int| 0u8)
}

/// The answer to an option.
pub open spec fn option_reply(option: u32, reply: u32, payload: Seq<u8>) -> Seq<u8> {
    be_bytes(OPTION_REPLY_MAGIC as nat, 8) + be_bytes(option as nat, 4) + be_bytes(
        reply as nat,
        4,
    ) + be_bytes(payload.len(), 4) + payload
}

/// The answer to a request.
pub open spec fn request_reply(error: u32, handle: u64) -> Seq<u8> {
    be_bytes(REP_MAGIC as nat, 4) + be_bytes(error as nat, 4) + be_bytes(handle as nat, 8)
}

/// The bytes of a text of ASCII characters.
pub open spec fn ascii_bytes(text: Seq<char>) -> Seq<u8> {
    Seq::new(text.len(), |i: int| text[i] as u8)
}

/// The request behind its magic number: flags, which are not read, command, handle,
/// offset and length.
pub open spec fn request_of(bytes: Seq<u8>) -> Request {
    Request {
        command: be_value(bytes.subrange(2, 4)) as u16,
        handle: be_value(bytes.subrange(4, 12)) as u64,
        offset: be_value(bytes.subrange(12, 20)) as u64,
        length: be_value(bytes.subrange(20, 24)) as u32,
    }
}

/// The export name in the data of a GO option: its length, the name, and at least the
/// number of information requests behind it.
pub open spec fn go_name(data: Seq<u8>) -> Option<Seq<char>> {
    let len = be_value(data.take(4)) as int;
    if data.len() < 6 || data.len() < 4 + len + 2 {
        None
    } else {
        Some(lossy_text(data.subrange(4, 4 + len)))
    }
}

/// The data of the information that answers a GO option.
pub open spec fn go_info(device_size: u64) -> Seq<u8> {
    be_bytes(INFO_EXPORT as nat, 2) + be_bytes(device_size as nat, 8) + be_bytes(
        offered_flags() as nat,
        2,
    )
}

/// A step that sends bytes and waits for an option.
pub open spec fn next_option(send: Seq<u8>) -> NbdStepView {
    NbdStepView { send, next: NbdNextView::Receive { count: 8, state: NbdState::OptionMagic } }
}

/// A step that sends bytes and waits for a request.
pub open spec fn next_request(send: Seq<u8>) -> NbdStepView {
    NbdStepView { send, next: NbdNextView::Receive { count: 4, state: NbdState::RequestMagic } }
}

/// A step that ends the connection with an error.
pub open spec fn failed(error: NbdError) -> NbdStepView {
    NbdStepView { send: Seq::empty(), next: NbdNextView::Fail { error } }
}

/// A step that sends nothing.
pub open spec fn silent(next: NbdNextView) -> NbdStepView {
    NbdStepView { send: Seq::empty(), next }
}

/// The name asks for this export: it is empty or equal.
pub open spec fn names_export(name: Seq<char>, export: Seq<char>) -> bool {
    name.len() == 0 || name == export
}

/// The answer to a client that names an export and is content with its size and flags.
pub open spec fn export_name_answered(
    export: Seq<char>,
    device_size: u64,
    name: Seq<char>,
) -> NbdStepView {
    if names_export(name, export) {
        next_request(export_info(device_size) + zero_run(EXPORT_PADDING as int))
    } else {
        failed(NbdError::UnknownExport)
    }
}

/// The answer to a GO option that names an export, or that could not be read.
pub open spec fn go_answered(
    export: Seq<char>,
    device_size: u64,
    name: Option<Seq<char>>,
) -> NbdStepView {
    match name {
        None => next_option(
            option_reply(OPT_GO, OPT_REP_ERR_INVALID, ascii_bytes("invalid NBD_OPT_GO"@)),
        ),
        Some(name) => if names_export(name, export) {
            next_request(
                option_reply(OPT_GO, OPT_REP_INFO, go_info(device_size)) + option_reply(
                    OPT_GO,
                    OPT_REP_ACK,
                    Seq::empty(),
                ),
            )
        } else {
            next_option(
                option_reply(OPT_GO, OPT_REP_ERR_INVALID, ascii_bytes("unknown NBD export"@)),
            )
        },
    }
}

/// The answer to an option and its data.
pub open spec fn option_answered(
    export: Seq<char>,
    device_size: u64,
    option: u32,
    data: Seq<u8>,
) -> NbdStepView {
    if option == OPT_EXPORT_NAME {
        export_name_answered(export, device_size, lossy_text(data))
    } else if option == OPT_GO {
        go_answered(export, device_size, go_name(data))
    } else if option == OPT_STRUCTURED_REPLY {
        next_option(
            option_reply(
                option,
                OPT_REP_ERR_UNSUP,
                ascii_bytes("structured replies are not supported"@),
            ),
        )
    } else if option == OPT_ABORT {
        failed(NbdError::ClientAborted)
    } else {
        next_option(
            option_reply(option, OPT_REP_ERR_UNSUP, ascii_bytes("unsupported NBD option"@)),
        )
    }
}

/// How many bytes of a refused write are read next.
pub open spec fn discard_count(remaining: u32) -> int {
    if remaining < DISCARD_CHUNK {
        remaining as int
    } else {
        DISCARD_CHUNK as int
    }
}

/// A refused write with data still to come: it is answered when all data has come.
pub open spec fn discard_on(handle: u64, remaining: u32) -> NbdStepView {
    if remaining == 0 {
        next_request(request_reply(ERR_INVALID, handle))
    } else {
        silent(
            NbdNextView::Receive {
                count: discard_count(remaining),
                state: NbdState::Discard { handle, remaining },
            },
        )
    }
}

/// What is done about a request.
pub open spec fn request_taken(device_size: u64, request: Request) -> NbdStepView {
    let fits = in_bounds(device_size, request.offset, request.length);
    if request.command == CMD_READ {
        if fits {
            silent(
                NbdNextView::ReadBackend {
                    offset: request.offset,
                    len: request.length as int,
                    state: NbdState::Reading { request },
                },
            )
        } else {
            next_request(request_reply(ERR_INVALID, request.handle))
        }
    } else if request.command == CMD_WRITE {
        if fits {
            silent(
                NbdNextView::Receive {
                    count: request.length as int,
                    state: NbdState::WriteData { request },
                },
            )
        } else {
            discard_on(request.handle, request.length)
        }
    } else if request.command == CMD_FLUSH {
        silent(NbdNextView::FlushBackend { state: NbdState::Flushing { request } })
    } else if request.command == CMD_DISC {
        silent(NbdNextView::FlushBackend { state: NbdState::Closing })
    } else {
        next_request(request_reply(ERR_UNSUPPORTED, request.handle))
    }
}

/// How many bytes a state waits for; none where it waits for the backend.
pub open spec fn awaited(state: NbdState) -> Option<int> {
    match state {
        NbdState::ClientFlags => Some(4),
        NbdState::OptionMagic => Some(8),
        NbdState::OptionHeader => Some(8),
        NbdState::OptionData { length, .. } => Some(length as int),
        NbdState::RequestMagic => Some(4),
        NbdState::RequestHeader => Some(24),
        NbdState::WriteData { request } => Some(request.length as int),
        NbdState::Discard { remaining, .. } => Some(discard_count(remaining)),
        _ => None,
    }
}

/// The next step when the awaited bytes came.
pub open spec fn received(
    export: Seq<char>,
    device_size: u64,
    state: NbdState,
    bytes: Seq<u8>,
) -> NbdStepView {
    match state {
        NbdState::ClientFlags => next_option(Seq::empty()),
        NbdState::OptionMagic => if be_value(bytes) == IHAVEOPT {
            silent(NbdNextView::Receive { count: 8, state: NbdState::OptionHeader })
        } else {
            failed(NbdError::InvalidOptionMagic)
        },
        NbdState::OptionHeader => {
            let option = be_value(bytes.take(4)) as u32;
            let length = be_value(bytes.subrange(4, 8)) as u32;
            silent(
                NbdNextView::Receive {
                    count: length as int,
                    state: NbdState::OptionData { option, length },
                },
            )
        },
        NbdState::OptionData { option, .. } => option_answered(export, device_size, option, bytes),
        NbdState::RequestMagic => if be_value(bytes) == REQ_MAGIC {
            silent(NbdNextView::Receive { count: 24, state: NbdState::RequestHeader })
        } else {
            failed(NbdError::InvalidRequestMagic)
        },
        NbdState::RequestHeader => request_taken(device_size, request_of(bytes)),
        NbdState::WriteData { request } => silent(
            NbdNextView::WriteBackend {
                offset: request.offset,
                bytes,
                state: NbdState::Writing { request },
            },
        ),
        NbdState::Discard { handle, remaining } => discard_on(
            handle,
            (remaining - discard_count(remaining)) as u32,
        ),
        _ => failed(NbdError::UnexpectedEvent),
    }
}

/// The next step of the server, after an event. A client that goes away in front of a
/// request or within it ends the connection without an error.
pub open spec fn advanced(
    export: Seq<char>,
    device_size: u64,
    state: NbdState,
    event: NbdEventView,
) -> NbdStepView {
    match event {
        NbdEventView::Received { bytes } => if awaited(state) == Some(bytes.len() as int) {
            received(export, device_size, state, bytes)
        } else {
            failed(NbdError::UnexpectedEvent)
        },
        NbdEventView::Eof => if state is RequestMagic || state is RequestHeader {
            silent(NbdNextView::Close)
        } else if awaited(state) is Some {
            failed(NbdError::UnexpectedEof)
        } else {
            failed(NbdError::UnexpectedEvent)
        },
        NbdEventView::Data { bytes } => match state {
            NbdState::Reading { request } => next_request(
                request_reply(0, request.handle) + bytes,
            ),
            _ => failed(NbdError::UnexpectedEvent),
        },
        NbdEventView::Done => match state {
            NbdState::Writing { request } => next_request(request_reply(0, request.handle)),
            NbdState::Flushing { request } => next_request(request_reply(0, request.handle)),
            NbdState::Closing => silent(NbdNextView::Close),
            _ => failed(NbdError::UnexpectedEvent),
        },
        NbdEventView::Failed => if awaited(state) is None {
            failed(NbdError::Backend)
        } else {
            failed(NbdError::UnexpectedEvent)
        },
    }
}

} // verus!
