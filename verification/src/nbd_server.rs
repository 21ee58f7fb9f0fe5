//! The server's side of a connection, step by step.
use vstd::prelude::*;
use vstd::slice::slice_subrange;

use crate::nbd::{
    advanced, ascii_bytes, awaited, discard_on, export_info, export_name_answered, failed,
    go_answered, go_info, go_name, greeting, names_export, next_option, next_request, offered_flags,
    option_answered, option_reply, received, request_of, request_reply, request_taken, silent,
    text_lossy, transmission_flags, zero_run, NbdError, NbdEvent, NbdNext, NbdNextView,
    NbdServerOptions, NbdState, NbdStep, NbdStepView, Request, CMD_DISC, CMD_FLUSH, CMD_READ,
    CMD_WRITE, DISCARD_CHUNK, ERR_INVALID, ERR_UNSUPPORTED, EXPORT_PADDING,
    HANDSHAKE_FIXED_NEWSTYLE, HANDSHAKE_NO_ZEROES, IHAVEOPT, INFO_EXPORT, NBD_MAGIC,
    OPTION_REPLY_MAGIC, OPT_ABORT, OPT_EXPORT_NAME, OPT_GO, OPT_REP_ACK, OPT_REP_ERR_INVALID,
    OPT_REP_ERR_UNSUP, OPT_REP_INFO, OPT_STRUCTURED_REPLY, REP_MAGIC, REQ_MAGIC,
};
use crate::text::{chars_of, text_equal};
use crate::wire::{push_bytes, push_u16, push_u32, push_u64, read_u16, read_u32, read_u64};

verus! {

/// The bytes of a text of ASCII characters.
fn text_bytes(text: &str) -> (bytes: Vec<u8>)
    ensures
        bytes@ == ascii_bytes(text@),
{
    let chars = chars_of(text);
    let mut bytes: Vec<u8> = Vec::new();
    let mut i: usize = 0;
    while i < chars.len()
        invariant
            i <= chars@.len(),
            bytes@.len() == i,
            forall|k: int| 0 <= k < i ==> #[trigger] bytes@[k] == chars@[k] as u8,
        decreases chars@.len() - i,
    {
        bytes.push(chars[i] as u8);
        i += 1;
    }
    assert(bytes@ =~= ascii_bytes(text@));
    bytes
}

/// The answer to an option.
pub fn write_option_reply(option: u32, reply: u32, payload: &[u8]) -> (bytes: Vec<u8>)
    requires
        payload@.len() <= u32::MAX,
    ensures
        bytes@ == option_reply(option, reply, payload@),
{
    let mut bytes: Vec<u8> = Vec::new();
    push_u64(&mut bytes, OPTION_REPLY_MAGIC);
    push_u32(&mut bytes, option);
    push_u32(&mut bytes, reply);
    push_u32(&mut bytes, payload.len() as u32);
    push_bytes(&mut bytes, payload);
    assert(bytes@ =~= option_reply(option, reply, payload@));
    bytes
}

/// The answer to a request.
pub fn write_reply(error: u32, handle: u64) -> (bytes: Vec<u8>)
    ensures
        bytes@ == request_reply(error, handle),
{
    let mut bytes: Vec<u8> = Vec::new();
    push_u32(&mut bytes, REP_MAGIC);
    push_u32(&mut bytes, error);
    push_u64(&mut bytes, handle);
    assert(bytes@ =~= request_reply(error, handle));
    bytes
}

/// The size and flags of the export.
pub fn write_export_info(device_size: u64) -> (bytes: Vec<u8>)
    ensures
        bytes@ == export_info(device_size),
{
    let mut bytes: Vec<u8> = Vec::new();
    push_u64(&mut bytes, device_size);
    push_u16(&mut bytes, transmission_flags());
    assert(bytes@ =~= export_info(device_size));
    bytes
}

/// The export name in the data of a GO option.
pub fn parse_go_export_name(data: &[u8]) -> (name: Option<String>)
    ensures
        match name {
            Some(text) => go_name(data@) == Some(text@),
            None => go_name(data@) is None,
        },
{
    if data.len() < 6 {
        return None;
    }
    let len = read_u32(data, 0) as usize;
    assert(data@.subrange(0, 4) =~= data@.take(4));
    if data.len() - 6 < len {
        return None;
    }
    Some(text_lossy(slice_subrange(data, 4, 4 + len)))
}

impl Request {
    /// The request behind its magic number.
    pub fn decode(bytes: &[u8]) -> (request: Self)
        requires
            bytes.len() == 24,
        ensures
            request == request_of(bytes@),
    {
        Request {
            command: read_u16(bytes, 2),
            handle: read_u64(bytes, 4),
            offset: read_u64(bytes, 12),
            length: read_u32(bytes, 20),
        }
    }
}

fn silently(next: NbdNext) -> (step: NbdStep)
    ensures
        step@ == silent(next@),
{
    let send: Vec<u8> = Vec::new();
    assert(send@ =~= Seq::<u8>::empty());
    NbdStep { send, next }
}

fn to_option(send: Vec<u8>) -> (step: NbdStep)
    ensures
        step@ == next_option(send@),
{
    NbdStep { send, next: NbdNext::Receive { count: 8, state: NbdState::OptionMagic } }
}

fn to_request(send: Vec<u8>) -> (step: NbdStep)
    ensures
        step@ == next_request(send@),
{
    NbdStep { send, next: NbdNext::Receive { count: 4, state: NbdState::RequestMagic } }
}

fn with_error(error: NbdError) -> (step: NbdStep)
    ensures
        step@ == failed(error),
{
    silently(NbdNext::Fail { error })
}

fn refused_option(option: u32, reply: u32, reason: &str) -> (step: NbdStep)
    requires
        reason@.len() <= u32::MAX,
    ensures
        step@ == next_option(option_reply(option, reply, ascii_bytes(reason@))),
{
    let payload = text_bytes(reason);
    to_option(write_option_reply(option, reply, payload.as_slice()))
}

fn discard(handle: u64, remaining: u32) -> (step: NbdStep)
    ensures
        step@ == discard_on(handle, remaining),
{
    if remaining == 0 {
        return to_request(write_reply(ERR_INVALID, handle));
    }
    let count: usize = if (remaining as usize) < DISCARD_CHUNK {
        remaining as usize
    } else {
        DISCARD_CHUNK
    };
    silently(NbdNext::Receive { count, state: NbdState::Discard { handle, remaining } })
}

impl NbdServerOptions {
    /// Begins a connection: greets the client and waits for its flags.
    pub fn start(&self) -> (step: NbdStep)
        ensures
            step@ == (NbdStepView {
                send: greeting(),
                next: NbdNextView::Receive { count: 4, state: NbdState::ClientFlags },
            }),
    {
        let mut send: Vec<u8> = Vec::new();
        push_u64(&mut send, NBD_MAGIC);
        push_u64(&mut send, IHAVEOPT);
        assert(1u16 | 2u16 == 3u16) by (bit_vector);
        push_u16(&mut send, HANDSHAKE_FIXED_NEWSTYLE | HANDSHAKE_NO_ZEROES);
        assert(send@ =~= greeting());
        NbdStep { send, next: NbdNext::Receive { count: 4, state: NbdState::ClientFlags } }
    }

    /// Tells whether a name asks for this export.
    fn offers(&self, name: &str) -> (offered: bool)
        ensures
            offered == names_export(name@, self.export_name@),
    {
        name.is_empty() || text_equal(name, self.export_name.as_str())
    }

    /// Answers a client that names an export and is content with its size and flags.
    pub fn answer_export_name(&self, name: &str) -> (step: NbdStep)
        ensures
            step@ == export_name_answered(self.export_name@, self.device_size, name@),
    {
        if !self.offers(name) {
            return with_error(NbdError::UnknownExport);
        }
        let mut send = write_export_info(self.device_size);
        let padding: Vec<u8> = vec![0u8; EXPORT_PADDING];
        assert(padding@ =~= zero_run(EXPORT_PADDING as int));
        push_bytes(&mut send, padding.as_slice());
        to_request(send)
    }

    /// Answers a GO option that names an export, or that could not be read.
    pub fn answer_go(&self, name: Option<String>) -> (step: NbdStep)
        ensures
            step@ == go_answered(
                self.export_name@,
                self.device_size,
                crate::backend::opt_text_view(name),
            ),
    {
        proof {
            reveal_strlit("invalid NBD_OPT_GO");
            reveal_strlit("unknown NBD export");
        }
        let name = match name {
            None => {
                return refused_option(OPT_GO, OPT_REP_ERR_INVALID, "invalid NBD_OPT_GO");
            },
            Some(name) => name,
        };
        if !self.offers(name.as_str()) {
            return refused_option(OPT_GO, OPT_REP_ERR_INVALID, "unknown NBD export");
        }
        let mut info: Vec<u8> = Vec::new();
        push_u16(&mut info, INFO_EXPORT);
        push_u64(&mut info, self.device_size);
        push_u16(&mut info, transmission_flags());
        proof {
            crate::wire::lemma_be_bytes_len(INFO_EXPORT as nat, 2);
            crate::wire::lemma_be_bytes_len(self.device_size as nat, 8);
            crate::wire::lemma_be_bytes_len(offered_flags() as nat, 2);
            assert(info@ =~= go_info(self.device_size));
        }
        let mut send = write_option_reply(OPT_GO, OPT_REP_INFO, info.as_slice());
        let none: Vec<u8> = Vec::new();
        assert(none@ =~= Seq::<u8>::empty());
        let ack = write_option_reply(OPT_GO, OPT_REP_ACK, none.as_slice());
        push_bytes(&mut send, ack.as_slice());
        to_request(send)
    }

    fn answer_option(&self, option: u32, data: &Vec<u8>) -> (step: NbdStep)
        ensures
            step@ == option_answered(self.export_name@, self.device_size, option, data@),
    {
        proof {
            reveal_strlit("structured replies are not supported");
            reveal_strlit("unsupported NBD option");
        }
        if option == OPT_EXPORT_NAME {
            let name = text_lossy(data.as_slice());
            self.answer_export_name(name.as_str())
        } else if option == OPT_GO {
            let name = parse_go_export_name(data.as_slice());
            self.answer_go(name)
        } else if option == OPT_STRUCTURED_REPLY {
            refused_option(option, OPT_REP_ERR_UNSUP, "structured replies are not supported")
        } else if option == OPT_ABORT {
            with_error(NbdError::ClientAborted)
        } else {
            refused_option(option, OPT_REP_ERR_UNSUP, "unsupported NBD option")
        }
    }

    /// Decides what is done about a request.
    pub fn take_request(&self, request: Request) -> (step: NbdStep)
        ensures
            step@ == request_taken(self.device_size, request),
    {
        let fits = crate::nbd::bounds_ok(self.device_size, request.offset, request.length);
        if request.command == CMD_READ {
            if !fits {
                return to_request(write_reply(ERR_INVALID, request.handle));
            }
            silently(
                NbdNext::ReadBackend {
                    offset: request.offset,
                    len: request.length as usize,
                    state: NbdState::Reading { request },
                },
            )
        } else if request.command == CMD_WRITE {
            if !fits {
                return discard(request.handle, request.length);
            }
            silently(
                NbdNext::Receive {
                    count: request.length as usize,
                    state: NbdState::WriteData { request },
                },
            )
        } else if request.command == CMD_FLUSH {
            silently(NbdNext::FlushBackend { state: NbdState::Flushing { request } })
        } else if request.command == CMD_DISC {
            silently(NbdNext::FlushBackend { state: NbdState::Closing })
        } else {
            to_request(write_reply(ERR_UNSUPPORTED, request.handle))
        }
    }

    fn receive(&self, state: NbdState, bytes: Vec<u8>) -> (step: NbdStep)
        requires
            awaited(state) == Some(bytes@.len() as int),
        ensures
            step@ == received(self.export_name@, self.device_size, state, bytes@),
    {
        let none: Vec<u8> = Vec::new();
        assert(none@ =~= Seq::<u8>::empty());
        match state {
            NbdState::ClientFlags => to_option(none),
            NbdState::OptionMagic => {
                assert(bytes@.subrange(0, 8) =~= bytes@);
                if read_u64(bytes.as_slice(), 0) == IHAVEOPT {
                    silently(NbdNext::Receive { count: 8, state: NbdState::OptionHeader })
                } else {
                    with_error(NbdError::InvalidOptionMagic)
                }
            },
            NbdState::OptionHeader => {
                assert(bytes@.subrange(0, 4) =~= bytes@.take(4));
                let option = read_u32(bytes.as_slice(), 0);
                let length = read_u32(bytes.as_slice(), 4);
                silently(
                    NbdNext::Receive {
                        count: length as usize,
                        state: NbdState::OptionData { option, length },
                    },
                )
            },
            NbdState::OptionData { option, length: _ } => self.answer_option(option, &bytes),
            NbdState::RequestMagic => {
                assert(bytes@.subrange(0, 4) =~= bytes@);
                if read_u32(bytes.as_slice(), 0) == REQ_MAGIC {
                    silently(NbdNext::Receive { count: 24, state: NbdState::RequestHeader })
                } else {
                    with_error(NbdError::InvalidRequestMagic)
                }
            },
            NbdState::RequestHeader => self.take_request(Request::decode(bytes.as_slice())),
            NbdState::WriteData { request } => silently(
                NbdNext::WriteBackend {
                    offset: request.offset,
                    bytes,
                    state: NbdState::Writing { request },
                },
            ),
            NbdState::Discard { handle, remaining } => {
                let count: u32 = if remaining < DISCARD_CHUNK as u32 {
                    remaining
                } else {
                    DISCARD_CHUNK as u32
                };
                discard(handle, remaining - count)
            },
            _ => with_error(NbdError::UnexpectedEvent),
        }
    }

    /// Goes on with a connection, after an event.
    pub fn advance(&self, state: NbdState, event: NbdEvent) -> (step: NbdStep)
        ensures
            step@ == advanced(self.export_name@, self.device_size, state, event@),
    {
        match event {
            NbdEvent::Received { bytes } => {
                let expected = awaited_count(&state);
                match expected {
                    Some(count) => if count == bytes.len() {
                        self.receive(state, bytes)
                    } else {
                        with_error(NbdError::UnexpectedEvent)
                    },
                    None => with_error(NbdError::UnexpectedEvent),
                }
            },
            NbdEvent::Eof => match state {
                NbdState::RequestMagic => silently(NbdNext::Close),
                NbdState::RequestHeader => silently(NbdNext::Close),
                _ => if awaited_count(&state).is_some() {
                    with_error(NbdError::UnexpectedEof)
                } else {
                    with_error(NbdError::UnexpectedEvent)
                },
            },
            NbdEvent::Data { bytes } => match state {
                NbdState::Reading { request } => {
                    let mut send = write_reply(0, request.handle);
                    push_bytes(&mut send, bytes.as_slice());
                    to_request(send)
                },
                _ => with_error(NbdError::UnexpectedEvent),
            },
            NbdEvent::Done => match state {
                NbdState::Writing { request } => to_request(write_reply(0, request.handle)),
                NbdState::Flushing { request } => to_request(write_reply(0, request.handle)),
                NbdState::Closing => silently(NbdNext::Close),
                _ => with_error(NbdError::UnexpectedEvent),
            },
            NbdEvent::Failed => if awaited_count(&state).is_none() {
                with_error(NbdError::Backend)
            } else {
                with_error(NbdError::UnexpectedEvent)
            },
        }
    }
}

fn awaited_count(state: &NbdState) -> (count: Option<usize>)
    ensures
        match count {
            Some(n) => awaited(*state) == Some(n as int),
            None => awaited(*state) is None,
        },
{
    match state {
        NbdState::ClientFlags => Some(4),
        NbdState::OptionMagic => Some(8),
        NbdState::OptionHeader => Some(8),
        NbdState::OptionData { option: _, length } => Some(*length as usize),
        NbdState::RequestMagic => Some(4),
        NbdState::RequestHeader => Some(24),
        NbdState::WriteData { request } => Some(request.length as usize),
        NbdState::Discard { handle: _, remaining } => if (*remaining as usize) < DISCARD_CHUNK {
            Some(*remaining as usize)
        } else {
            Some(DISCARD_CHUNK)
        },
        _ => None,
    }
}

} // verus!
