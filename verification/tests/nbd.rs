use std::sync::Arc;

use tgdrive::nbd::{
    bounds_ok, transmission_flags, NbdError, NbdEvent, NbdExport, NbdNext, NbdServerOptions,
    NbdState, NbdStep, Request, CMD_DISC, CMD_FLUSH, CMD_READ, CMD_TRIM, CMD_WRITE,
    CMD_WRITE_ZEROES, ERR_INVALID, ERR_UNSUPPORTED, HANDSHAKE_FIXED_NEWSTYLE, HANDSHAKE_NO_ZEROES,
    IHAVEOPT, NBD_MAGIC, OPTION_REPLY_MAGIC, OPT_ABORT, OPT_EXPORT_NAME, OPT_GO, OPT_REP_ACK,
    OPT_REP_ERR_INVALID, OPT_REP_ERR_UNSUP, OPT_REP_INFO, OPT_STRUCTURED_REPLY, REP_MAGIC,
    REQ_MAGIC, TRANSMISSION_SEND_FLUSH,
};
use tgdrive::nbd_server::{
    parse_go_export_name, write_export_info, write_option_reply, write_reply,
};

struct MemNbd {
    bytes: Vec<u8>,
    flushes: usize,
}

impl MemNbd {
    fn new() -> Self {
        MemNbd { bytes: vec![0; 4096], flushes: 0 }
    }
}

/// What a server said to a client, and how the connection ended.
struct Served {
    sent: Vec<u8>,
    at: usize,
    ended: Result<(), NbdError>,
}

impl Served {
    fn take(&mut self, count: usize) -> &[u8] {
        self.at += count;
        &self.sent[self.at - count..self.at]
    }

    fn take_u16(&mut self) -> u16 {
        u16::from_be_bytes(self.take(2).try_into().unwrap())
    }

    fn take_u32(&mut self) -> u32 {
        u32::from_be_bytes(self.take(4).try_into().unwrap())
    }

    fn take_u64(&mut self) -> u64 {
        u64::from_be_bytes(self.take(8).try_into().unwrap())
    }

    fn assert_reply(&mut self, error: u32, handle: u64) {
        assert_eq!(self.take_u32(), REP_MAGIC);
        assert_eq!(self.take_u32(), error);
        assert_eq!(self.take_u64(), handle);
    }

    fn assert_option_reply(&mut self, option: u32, reply: u32, payload: &[u8]) {
        assert_eq!(self.take_u64(), OPTION_REPLY_MAGIC);
        assert_eq!(self.take_u32(), option);
        assert_eq!(self.take_u32(), reply);
        assert_eq!(self.take_u32() as usize, payload.len());
        assert_eq!(self.take(payload.len()), payload);
    }

    fn finish_handshake(&mut self) {
        self.take(18 + 10 + 124);
    }
}

fn serve(options: &NbdServerOptions, backend: &mut MemNbd, said: &[u8]) -> Served {
    let mut sent = Vec::new();
    let mut at = 0;
    let mut step = options.start();
    loop {
        sent.extend(step.send);
        let (state, event) = match step.next {
            NbdNext::Receive { count, state } => {
                if at + count <= said.len() {
                    let bytes = said[at..at + count].to_vec();
                    at += count;
                    (state, NbdEvent::Received { bytes })
                } else {
                    (state, NbdEvent::Eof)
                }
            }
            NbdNext::ReadBackend { offset, len, state } => {
                let from = offset as usize;
                (state, NbdEvent::Data { bytes: backend.bytes[from..from + len].to_vec() })
            }
            NbdNext::WriteBackend { offset, bytes, state } => {
                let from = offset as usize;
                backend.bytes[from..from + bytes.len()].copy_from_slice(&bytes);
                (state, NbdEvent::Done)
            }
            NbdNext::FlushBackend { state } => {
                backend.flushes += 1;
                (state, NbdEvent::Done)
            }
            NbdNext::Close => return Served { sent, at: 0, ended: Ok(()) },
            NbdNext::Fail { error } => return Served { sent, at: 0, ended: Err(error) },
        };
        step = options.advance(state, event);
    }
}

fn say_option(said: &mut Vec<u8>, option: u32, data: &[u8]) {
    said.extend(IHAVEOPT.to_be_bytes());
    said.extend(option.to_be_bytes());
    said.extend((data.len() as u32).to_be_bytes());
    said.extend(data);
}

fn handshake() -> Vec<u8> {
    let mut said = 0u32.to_be_bytes().to_vec();
    say_option(&mut said, OPT_EXPORT_NAME, b"tgdrive");
    said
}

fn write_request_header(said: &mut Vec<u8>, command: u16, handle: u64, offset: u64, len: u32) {
    said.extend(REQ_MAGIC.to_be_bytes());
    said.extend(0u16.to_be_bytes());
    said.extend(command.to_be_bytes());
    said.extend(handle.to_be_bytes());
    said.extend(offset.to_be_bytes());
    said.extend(len.to_be_bytes());
}

fn write_request(said: &mut Vec<u8>, command: u16, handle: u64, offset: u64, payload: &[u8]) {
    write_request_header(said, command, handle, offset, payload.len() as u32);
    said.extend(payload);
}

fn small_options() -> NbdServerOptions {
    NbdServerOptions { device_size: 4096, ..NbdServerOptions::default() }
}

fn go_data(name: &[u8]) -> Vec<u8> {
    let mut data = (name.len() as u32).to_be_bytes().to_vec();
    data.extend(name);
    data.extend(0u16.to_be_bytes());
    data
}

#[test]
fn negotiates_and_serves_read_write_flush_disconnect() {
    let options = NbdServerOptions {
        bind: "127.0.0.1:0".to_string(),
        export_name: "tgdrive".to_string(),
        device_size: 4096,
        logical_block_size: 4096,
        max_inflight: 8,
    };
    let mut backend = MemNbd::new();
    let mut said = handshake();
    write_request(&mut said, CMD_WRITE, 1, 4, b"test");
    write_request_header(&mut said, CMD_READ, 2, 4, 4);
    write_request_header(&mut said, CMD_FLUSH, 3, 0, 0);
    write_request_header(&mut said, CMD_DISC, 4, 0, 0);

    let mut server = serve(&options, &mut backend, &said);
    assert_eq!(server.take_u64(), NBD_MAGIC);
    assert_eq!(server.take_u64(), IHAVEOPT);
    assert_eq!(server.take_u16(), HANDSHAKE_FIXED_NEWSTYLE | HANDSHAKE_NO_ZEROES);
    assert_eq!(server.take_u64(), 4096);
    let flags = server.take_u16();
    assert!(flags & TRANSMISSION_SEND_FLUSH != 0);
    assert_eq!(server.take(124), vec![0u8; 124]);

    server.assert_reply(0, 1);
    server.assert_reply(0, 2);
    assert_eq!(server.take(4), b"test");
    server.assert_reply(0, 3);
    assert_eq!(server.at, server.sent.len());
    assert_eq!(server.ended, Ok(()));
    assert_eq!(backend.flushes, 2);
    assert_eq!(&backend.bytes[4..8], b"test");
}

#[test]
fn rejects_trim_and_write_zeroes() {
    let mut said = handshake();
    write_request_header(&mut said, CMD_TRIM, 1, 0, 512);
    write_request_header(&mut said, CMD_WRITE_ZEROES, 2, 0, 512);
    let mut server = serve(&small_options(), &mut MemNbd::new(), &said);
    server.finish_handshake();
    server.assert_reply(ERR_UNSUPPORTED, 1);
    server.assert_reply(ERR_UNSUPPORTED, 2);
    assert_eq!(server.ended, Ok(()));
}

#[test]
fn requests_beyond_the_export_are_answered_and_skipped() {
    let mut backend = MemNbd::new();
    let mut said = handshake();
    write_request_header(&mut said, CMD_READ, 1, 4096, 1);
    write_request(&mut said, CMD_WRITE, 2, 4000, &vec![9; 9000]);
    write_request_header(&mut said, 77, 3, 0, 0);
    write_request_header(&mut said, CMD_READ, 4, u64::MAX, 1);
    write_request_header(&mut said, CMD_READ, 5, 4095, 1);
    let mut server = serve(&small_options(), &mut backend, &said);
    server.finish_handshake();
    server.assert_reply(ERR_INVALID, 1);
    server.assert_reply(ERR_INVALID, 2);
    server.assert_reply(ERR_UNSUPPORTED, 3);
    server.assert_reply(ERR_INVALID, 4);
    server.assert_reply(0, 5);
    assert_eq!(server.take(1), vec![0]);
    assert_eq!(backend.bytes, vec![0; 4096]);
}

#[test]
fn go_negotiates_by_name() {
    let mut said = 0u32.to_be_bytes().to_vec();
    say_option(&mut said, OPT_STRUCTURED_REPLY, b"");
    say_option(&mut said, 99, b"data");
    say_option(&mut said, OPT_GO, b"short");
    say_option(&mut said, OPT_GO, &go_data(b"other"));
    say_option(&mut said, OPT_GO, &go_data(b"tgdrive"));
    let mut server = serve(&small_options(), &mut MemNbd::new(), &said);
    server.take(18);
    server.assert_option_reply(
        OPT_STRUCTURED_REPLY,
        OPT_REP_ERR_UNSUP,
        b"structured replies are not supported",
    );
    server.assert_option_reply(99, OPT_REP_ERR_UNSUP, b"unsupported NBD option");
    server.assert_option_reply(OPT_GO, OPT_REP_ERR_INVALID, b"invalid NBD_OPT_GO");
    server.assert_option_reply(OPT_GO, OPT_REP_ERR_INVALID, b"unknown NBD export");
    server.assert_option_reply(OPT_GO, OPT_REP_INFO, &[0, 0, 0, 0, 0, 0, 0, 0, 16, 0, 0, 101]);
    server.assert_option_reply(OPT_GO, OPT_REP_ACK, b"");
    assert_eq!(server.at, server.sent.len());
    assert_eq!(server.ended, Ok(()));
}

#[test]
fn an_empty_name_means_the_export() {
    let mut said = 0u32.to_be_bytes().to_vec();
    say_option(&mut said, OPT_EXPORT_NAME, b"");
    let server = serve(&small_options(), &mut MemNbd::new(), &said);
    assert_eq!(server.ended, Ok(()));
    assert_eq!(server.sent.len(), 18 + 10 + 124);
    assert_eq!(
        small_options().answer_go(Some(String::new())).next,
        NbdNext::Receive { count: 4, state: NbdState::RequestMagic }
    );
    assert_eq!(
        small_options().answer_export_name("tgdrive").next,
        NbdNext::Receive { count: 4, state: NbdState::RequestMagic }
    );
}

#[test]
fn broken_connections_end_with_their_error() {
    let options = small_options();
    let mut said = 0u32.to_be_bytes().to_vec();
    assert_eq!(serve(&options, &mut MemNbd::new(), &[]).ended, Err(NbdError::UnexpectedEof));
    say_option(&mut said, OPT_EXPORT_NAME, b"other");
    assert_eq!(serve(&options, &mut MemNbd::new(), &said).ended, Err(NbdError::UnknownExport));
    said[4] = 0;
    assert_eq!(
        serve(&options, &mut MemNbd::new(), &said).ended,
        Err(NbdError::InvalidOptionMagic)
    );
    let mut aborted = 0u32.to_be_bytes().to_vec();
    say_option(&mut aborted, OPT_ABORT, b"");
    assert_eq!(
        serve(&options, &mut MemNbd::new(), &aborted).ended,
        Err(NbdError::ClientAborted)
    );
    let mut garbled = handshake();
    garbled.extend(b"more");
    assert_eq!(
        serve(&options, &mut MemNbd::new(), &garbled).ended,
        Err(NbdError::InvalidRequestMagic)
    );
    let mut cut = handshake();
    write_request_header(&mut cut, CMD_WRITE, 1, 0, 4);
    assert_eq!(serve(&options, &mut MemNbd::new(), &cut).ended, Err(NbdError::UnexpectedEof));
}

#[test]
fn a_failing_backend_ends_the_connection() {
    let options = small_options();
    let request = Request { command: CMD_READ, handle: 1, offset: 0, length: 4 };
    let step = options.take_request(request);
    let state = match step.next {
        NbdNext::ReadBackend { offset: 0, len: 4, state } => state,
        other => panic!("no read: {:?}", other),
    };
    assert_eq!(
        options.advance(state, NbdEvent::Failed),
        NbdStep { send: Vec::new(), next: NbdNext::Fail { error: NbdError::Backend } }
    );
    assert_eq!(
        options.advance(NbdState::Closing, NbdEvent::Eof).next,
        NbdNext::Fail { error: NbdError::UnexpectedEvent }
    );
}

#[test]
fn requests_are_read_as_they_were_written() {
    let mut said = Vec::new();
    write_request_header(&mut said, CMD_WRITE, 0x0102_0304_0506_0708, 1 << 40, 4096);
    assert_eq!(
        Request::decode(&said[4..]),
        Request {
            command: CMD_WRITE,
            handle: 0x0102_0304_0506_0708,
            offset: 1 << 40,
            length: 4096,
        }
    );
}

#[test]
fn replies_have_their_layout() {
    assert_eq!(
        write_reply(22, 7),
        vec![0x67, 0x44, 0x66, 0x98, 0, 0, 0, 22, 0, 0, 0, 0, 0, 0, 0, 7]
    );
    assert_eq!(write_export_info(1), vec![0, 0, 0, 0, 0, 0, 0, 1, 0, 101]);
    assert_eq!(
        write_option_reply(7, 1, b"x"),
        vec![0, 3, 0xe8, 0x89, 4, 0x55, 0x65, 0xa9, 0, 0, 0, 7, 0, 0, 0, 1, 0, 0, 0, 1, b'x']
    );
    assert_eq!(transmission_flags(), 101);
}

#[test]
fn names_that_are_no_text_are_read_with_replacements() {
    assert_eq!(parse_go_export_name(&go_data(b"tgdrive")), Some("tgdrive".to_string()));
    assert_eq!(
        parse_go_export_name(&go_data(&[b'a', 0xff, b'b'])),
        Some("a\u{fffd}b".to_string())
    );
    assert_eq!(parse_go_export_name(b"short"), None);
    assert_eq!(parse_go_export_name(&[0, 0, 0, 9, 1, 2, 3]), None);
}

#[test]
fn bounds_do_not_overflow() {
    assert!(bounds_ok(4096, 4095, 1));
    assert!(bounds_ok(4096, 4096, 0));
    assert!(!bounds_ok(4096, 4095, 2));
    assert!(!bounds_ok(u64::MAX, u64::MAX, 1));
}

#[test]
fn defaults_and_limits_of_an_export() {
    let options = NbdServerOptions::default();
    assert_eq!(options.bind, "127.0.0.1:10809");
    assert_eq!(options.export_name, "tgdrive");
    assert_eq!(options.device_size, 64 * 1024 * 1024);
    assert_eq!(options.logical_block_size, 4096);
    assert_eq!(options.max_inflight, 64);
    let export = NbdExport::new(NbdServerOptions { max_inflight: 0, ..options }, Arc::new(7u8));
    assert_eq!(export.inflight_limit(), 1);
    assert_eq!(*export.backend, 7);
}
