//! What the server promises its clients and its backend.
use vstd::prelude::*;

use crate::nbd::{
    advanced, awaited, discard_count, discard_on, failed, go_name, greeting, lossy_text,
    names_export, next_option, next_request, option_answered, request_of, request_reply,
    request_taken, silent, NbdError, NbdEventView, NbdNextView, NbdState, NbdStepView, Request,
    ERR_INVALID, OPT_EXPORT_NAME, OPT_GO,
};
use crate::wire::{
    be_bytes, be_value, lemma_be_bytes_len, lemma_be_bytes_of_value, lemma_be_value_of_bytes,
    lemma_byte_capacity_values,
};

verus! {

/// A state in which every request that is being served lies within the device.
pub open spec fn state_ok(device_size: u64, state: NbdState) -> bool {
    match state {
        NbdState::WriteData { request } => request.offset + request.length <= device_size,
        NbdState::Reading { request } => request.offset + request.length <= device_size,
        NbdState::Writing { request } => request.offset + request.length <= device_size,
        _ => true,
    }
}

/// What is asked of the backend lies within the device, and so do the requests in
/// progress.
pub open spec fn next_ok(device_size: u64, next: NbdNextView) -> bool {
    match next {
        NbdNextView::Receive { state, count } => {
            &&& state_ok(device_size, state)
            &&& awaited(state) == Some(count)
        },
        NbdNextView::ReadBackend { offset, len, state } => {
            &&& state_ok(device_size, state)
            &&& 0 <= len
            &&& offset + len <= device_size
        },
        NbdNextView::WriteBackend { offset, bytes, state } => {
            &&& state_ok(device_size, state)
            &&& offset + bytes.len() <= device_size
        },
        NbdNextView::FlushBackend { state } => state_ok(device_size, state),
        _ => true,
    }
}

/// Whatever a client sends, the backend is only asked for ranges within the device, and
/// the server waits for as many bytes as the next message has.
pub proof fn law_backend_is_asked_within_bounds(
    export: Seq<char>,
    device_size: u64,
    state: NbdState,
    event: NbdEventView,
)
    requires
        state_ok(device_size, state),
    ensures
        next_ok(device_size, advanced(export, device_size, state, event).next),
{
}

/// The error with which a request is refused, if it is: a read or a write, command 0 or 1,
/// that ends behind the device is invalid, and every command behind the flush, which is 3, is
/// unsupported.
pub open spec fn refusal(device_size: u64, request: Request) -> Option<u32> {
    if request.command <= 1 && request.offset + request.length > device_size {
        Some(22)
    } else if request.command > 3 {
        Some(95)
    } else {
        None
    }
}

/// The answer to a request as the client gets it: a number that marks answers, the error, and
/// the handle of the request.
pub open spec fn answer_bytes(error: u32, handle: u64) -> Seq<u8> {
    be_bytes(0x6744_6698, 4) + be_bytes(error as nat, 4) + be_bytes(handle as nat, 8)
}

/// What a server sent, where it stands, and what it has not read yet.
pub struct Fed {
    pub sent: Seq<u8>,
    pub step: NbdStepView,
    pub rest: Seq<u8>,
}

/// A server that stands at `step`, after it received `count` messages from `input`.
pub open spec fn fed(
    export: Seq<char>,
    device_size: u64,
    step: NbdStepView,
    input: Seq<u8>,
    count: nat,
) -> Fed
    decreases count,
{
    if count == 0 {
        Fed { sent: step.send, step, rest: input }
    } else {
        match step.next {
            NbdNextView::Receive { count: len, state } => {
                let next = advanced(
                    export,
                    device_size,
                    state,
                    NbdEventView::Received { bytes: input.take(len) },
                );
                let later = fed(export, device_size, next, input.skip(len), (count - 1) as nat);
                Fed { sent: step.send + later.sent, ..later }
            },
            _ => Fed { sent: step.send, step, rest: input },
        }
    }
}

proof fn lemma_discard(
    export: Seq<char>,
    device_size: u64,
    handle: u64,
    remaining: u32,
    data: Seq<u8>,
    rest: Seq<u8>,
) -> (count: nat)
    requires
        data.len() == remaining,
    ensures
        ({
            let end = fed(export, device_size, discard_on(handle, remaining), data + rest, count);
            &&& end.sent == request_reply(ERR_INVALID, handle)
            &&& end.step == next_request(request_reply(ERR_INVALID, handle))
            &&& end.rest == rest
        }),
    decreases remaining,
{
    let step = discard_on(handle, remaining);
    if remaining == 0 {
        assert(data + rest =~= rest);
        0
    } else {
        let len = discard_count(remaining);
        let left = (remaining - len) as u32;
        let count = lemma_discard(export, device_size, handle, left, data.skip(len), rest);
        let state = NbdState::Discard { handle, remaining };
        assert((data + rest).take(len) =~= data.take(len));
        assert((data + rest).skip(len) =~= data.skip(len) + rest);
        let next = advanced(
            export,
            device_size,
            state,
            NbdEventView::Received { bytes: data.take(len) },
        );
        assert(next == discard_on(handle, left));
        let later = fed(export, device_size, next, data.skip(len) + rest, count);
        let end = fed(export, device_size, step, data + rest, count + 1);
        assert(end.sent =~= later.sent);
        count + 1
    }
}

/// Every refused request is answered with its own handle and its error, the backend does
/// not see it, and the server goes on with the next request. Of a refused write the data
/// is read and dropped first, so that what follows it is taken as the next request.
pub proof fn law_refused_request_is_answered(
    export: Seq<char>,
    device_size: u64,
    request: Request,
    data: Seq<u8>,
    rest: Seq<u8>,
)
    requires
        refusal(device_size, request) is Some,
        data.len() == if request.command == 1 {
            request.length as nat
        } else {
            0
        },
    ensures
        exists|count: nat|
            {
                let end = #[trigger] fed(
                    export,
                    device_size,
                    request_taken(device_size, request),
                    data + rest,
                    count,
                );
                let reply = answer_bytes(refusal(device_size, request)->0, request.handle);
                &&& end.sent == reply
                &&& end.step.send == reply
                &&& end.step.next == (NbdNextView::Receive {
                    count: 4,
                    state: NbdState::RequestMagic,
                })
                &&& end.rest == rest
            },
{
    let first = request_taken(device_size, request);
    if request.command == 1 {
        let count = lemma_discard(
            export,
            device_size,
            request.handle,
            request.length,
            data,
            rest,
        );
        let end = fed(export, device_size, first, data + rest, count);
    } else {
        assert(data + rest =~= rest);
        let end = fed(export, device_size, first, data + rest, 0);
    }
}

/// An accepted request reaches the backend as it is, and is answered with its own handle
/// when the backend is done, the data of a read behind the answer. A client that
/// disconnects has its writes flushed first. Where the backend fails, nothing is answered
/// and the connection ends.
pub proof fn law_accepted_request_is_served(
    export: Seq<char>,
    device_size: u64,
    request: Request,
    data: Seq<u8>,
)
    requires
        refusal(device_size, request) is None,
        data.len() == request.length,
    ensures
        ({
            let first = request_taken(device_size, request);
            let answer = answer_bytes(0, request.handle);
            let later = |state: NbdState, event: NbdEventView|
                advanced(export, device_size, state, event);
            let (offset, len) = (request.offset, request.length as int);
            &&& request.command == 0 ==> {
                let state = NbdState::Reading { request };
                &&& first == silent(NbdNextView::ReadBackend { offset, len, state })
                &&& later(state, NbdEventView::Data { bytes: data }) == next_request(answer + data)
            }
            &&& request.command == 1 ==> {
                let waiting = NbdState::WriteData { request };
                let state = NbdState::Writing { request };
                &&& first == silent(NbdNextView::Receive { count: len, state: waiting })
                &&& later(waiting, NbdEventView::Received { bytes: data }) == silent(
                    NbdNextView::WriteBackend { offset, bytes: data, state },
                )
                &&& later(state, NbdEventView::Done) == next_request(answer)
            }
            &&& request.command == 3 ==> {
                let state = NbdState::Flushing { request };
                &&& first == silent(NbdNextView::FlushBackend { state })
                &&& later(state, NbdEventView::Done) == next_request(answer)
            }
            &&& request.command == 2 ==> {
                let state = NbdState::Closing;
                &&& first == silent(NbdNextView::FlushBackend { state })
                &&& later(state, NbdEventView::Done) == silent(NbdNextView::Close)
            }
            &&& forall|state: NbdState|
                awaited(state) is None ==> #[trigger] later(state, NbdEventView::Failed) == failed(
                    NbdError::Backend,
                )
        }),
{
}

/// A client gets past the options only by naming this export, or none, in the one option
/// or the other.
pub proof fn law_export_is_entered_by_name(
    export: Seq<char>,
    device_size: u64,
    option: u32,
    data: Seq<u8>,
)
    ensures
        option_answered(export, device_size, option, data).next == (NbdNextView::Receive {
            count: 4,
            state: NbdState::RequestMagic,
        }) <==> {
            ||| option == OPT_EXPORT_NAME && names_export(lossy_text(data), export)
            ||| option == OPT_GO && go_name(data) is Some && names_export(go_name(data)->0, export)
        },
{
}

/// A request as a client sends it behind the magic number.
pub open spec fn request_bytes(request: Request, flags: u16) -> Seq<u8> {
    be_bytes(flags as nat, 2) + be_bytes(request.command as nat, 2) + be_bytes(
        request.handle as nat,
        8,
    ) + be_bytes(request.offset as nat, 8) + be_bytes(request.length as nat, 4)
}

/// The server reads the request that the client sent, whatever its flags.
pub proof fn law_request_round_trip(request: Request, flags: u16)
    ensures
        request_bytes(request, flags).len() == 24,
        request_of(request_bytes(request, flags)) == request,
{
    let bytes = request_bytes(request, flags);
    lemma_byte_capacity_values();
    lemma_be_bytes_len(flags as nat, 2);
    lemma_be_bytes_len(request.command as nat, 2);
    lemma_be_bytes_len(request.handle as nat, 8);
    lemma_be_bytes_len(request.offset as nat, 8);
    lemma_be_bytes_len(request.length as nat, 4);
    assert(bytes.subrange(2, 4) =~= be_bytes(request.command as nat, 2));
    assert(bytes.subrange(4, 12) =~= be_bytes(request.handle as nat, 8));
    assert(bytes.subrange(12, 20) =~= be_bytes(request.offset as nat, 8));
    assert(bytes.subrange(20, 24) =~= be_bytes(request.length as nat, 4));
    lemma_be_value_of_bytes(request.command as nat, 2);
    lemma_be_value_of_bytes(request.handle as nat, 8);
    lemma_be_value_of_bytes(request.offset as nat, 8);
    lemma_be_value_of_bytes(request.length as nat, 4);
}

/// Where a server waits for a request, it takes the one that the client sends, behind the
/// number that marks requests, and leaves what comes after it. Any other number ends the
/// connection with an error, and a client that goes away there ends it without one.
pub proof fn law_request_is_taken_as_sent(
    export: Seq<char>,
    device_size: u64,
    sent: Seq<u8>,
    request: Request,
    flags: u16,
    rest: Seq<u8>,
    other: Seq<u8>,
)
    requires
        other.len() == 4,
        other != be_bytes(0x2560_9513, 4),
    ensures
        ({
            let input = be_bytes(0x2560_9513, 4) + request_bytes(request, flags) + rest;
            let end = fed(export, device_size, next_request(sent), input, 2);
            &&& end.step == request_taken(device_size, request)
            &&& end.sent == sent + request_taken(device_size, request).send
            &&& end.rest == rest
        }),
        advanced(
            export,
            device_size,
            NbdState::RequestMagic,
            NbdEventView::Received { bytes: other },
        ) == failed(NbdError::InvalidRequestMagic),
        advanced(export, device_size, NbdState::RequestMagic, NbdEventView::Eof) == silent(
            NbdNextView::Close,
        ),
        advanced(export, device_size, NbdState::RequestHeader, NbdEventView::Eof) == silent(
            NbdNextView::Close,
        ),
{
    let mark = be_bytes(0x2560_9513, 4);
    let header = request_bytes(request, flags);
    let input = mark + header + rest;
    let first = next_request(sent);
    law_request_round_trip(request, flags);
    lemma_byte_capacity_values();
    lemma_be_bytes_len(0x2560_9513, 4);
    lemma_be_value_of_bytes(0x2560_9513, 4);
    lemma_be_bytes_of_value(other);
    assert(input.take(4) =~= mark);
    assert(input.skip(4) =~= header + rest);
    assert((header + rest).take(24) =~= header);
    assert((header + rest).skip(24) =~= rest);
    reveal_with_fuel(fed, 3);
    let end = fed(export, device_size, first, input, 2);
    assert(end.sent =~= sent + request_taken(device_size, request).send);
}

/// An option as a client sends it: a number that marks options, the option, and its data
/// behind their length.
pub open spec fn option_bytes(option: u32, data: Seq<u8>) -> Seq<u8> {
    be_bytes(0x4948_4156_454f_5054, 8) + be_bytes(option as nat, 4) + be_bytes(data.len(), 4)
        + data
}

/// The answer to an option as the client gets it: a number that marks such answers, the
/// option, the reply, and the data behind their length.
pub open spec fn option_answer_bytes(option: u32, reply: nat, data: Seq<u8>) -> Seq<u8> {
    be_bytes(0x0003_e889_0455_65a9, 8) + be_bytes(option as nat, 4) + be_bytes(reply, 4)
        + be_bytes(data.len(), 4) + data
}

/// The name that the data of an option asks for: of option 1 the data are the name; of option
/// 7 they hold the name behind its length and in front of at least two more bytes.
pub open spec fn asked_name(option: u32, data: Seq<u8>) -> Option<Seq<char>> {
    if option == 1 {
        Some(lossy_text(data))
    } else if option == 7 && data.len() >= 6 && 6 + be_value(data.take(4)) <= data.len() {
        Some(lossy_text(data.subrange(4, 4 + be_value(data.take(4)) as int)))
    } else {
        None
    }
}

/// The bytes refuse an option with this reply, and give a reason.
pub open spec fn is_refused_option(option: u32, reply: nat, bytes: Seq<u8>) -> bool {
    exists|reason: Seq<u8>| bytes == #[trigger] option_answer_bytes(option, reply, reason)
}

/// The answer to an option, for every option and all data. A client that asks for this export
/// by its name, or for the only one by none, is told the size of the device and the flags, and
/// may then send requests; any other option but an abort, which is 2, is refused with a reason,
/// and the client may send another.
pub open spec fn is_option_answer(
    export: Seq<char>,
    device_size: u64,
    option: u32,
    data: Seq<u8>,
    step: NbdStepView,
) -> bool {
    let info = be_bytes(device_size as nat, 8) + be_bytes(101, 2);
    let asked = asked_name(option, data);
    if asked is Some && (asked->0 == export || asked->0.len() == 0) {
        &&& step.next == (NbdNextView::Receive { count: 4, state: NbdState::RequestMagic })
        &&& if option == 1 {
            step.send == info + Seq::new(124, |i: int| 0u8)
        } else {
            step.send == option_answer_bytes(option, 3, be_bytes(0, 2) + info)
                + option_answer_bytes(option, 1, Seq::empty())
        }
    } else if option == 1 {
        step == failed(NbdError::UnknownExport)
    } else if option == 2 {
        step == failed(NbdError::ClientAborted)
    } else {
        &&& step.next == (NbdNextView::Receive { count: 8, state: NbdState::OptionMagic })
        &&& is_refused_option(
            option,
            if option == 7 {
                0x8000_0003
            } else {
                0x8000_0001
            },
            step.send,
        )
    }
}

/// A connection begins with what marks the protocol, whatever flags the client has. Where the
/// server then waits for an option, it takes the one that the client sends and answers it, for
/// every option and all data; any other number in front of it ends the connection with an
/// error.
pub proof fn law_option_is_answered(
    export: Seq<char>,
    device_size: u64,
    sent: Seq<u8>,
    option: u32,
    data: Seq<u8>,
    rest: Seq<u8>,
    other: Seq<u8>,
    flags: Seq<u8>,
)
    requires
        data.len() <= u32::MAX,
        other.len() == 8,
        other != be_bytes(0x4948_4156_454f_5054, 8),
        flags.len() == 4,
    ensures
        greeting() == be_bytes(0x4e42_444d_4147_4943, 8) + be_bytes(0x4948_4156_454f_5054, 8)
            + be_bytes(3, 2),
        advanced(
            export,
            device_size,
            NbdState::ClientFlags,
            NbdEventView::Received { bytes: flags },
        ) == next_option(Seq::empty()),
        ({
            let end = fed(
                export,
                device_size,
                next_option(sent),
                option_bytes(option, data) + rest,
                3,
            );
            &&& is_option_answer(export, device_size, option, data, end.step)
            &&& end.sent == sent + end.step.send
            &&& end.rest == rest
        }),
        advanced(
            export,
            device_size,
            NbdState::OptionMagic,
            NbdEventView::Received { bytes: other },
        ) == failed(NbdError::InvalidOptionMagic),
{
    let mark = be_bytes(0x4948_4156_454f_5054, 8);
    let header = be_bytes(option as nat, 4) + be_bytes(data.len(), 4);
    let input = option_bytes(option, data) + rest;
    let first = next_option(sent);
    lemma_byte_capacity_values();
    lemma_be_bytes_len(0x4948_4156_454f_5054, 8);
    lemma_be_value_of_bytes(0x4948_4156_454f_5054, 8);
    lemma_be_bytes_of_value(other);
    lemma_be_bytes_len(option as nat, 4);
    lemma_be_value_of_bytes(option as nat, 4);
    lemma_be_bytes_len(data.len(), 4);
    lemma_be_value_of_bytes(data.len(), 4);
    assert(input.take(8) =~= mark);
    assert(input.skip(8) =~= header + data + rest);
    assert((header + data + rest).take(8) =~= header);
    assert((header + data + rest).skip(8) =~= data + rest);
    assert(header.take(4) =~= be_bytes(option as nat, 4));
    assert(header.subrange(4, 8) =~= be_bytes(data.len(), 4));
    assert((data + rest).take(data.len() as int) =~= data);
    assert((data + rest).skip(data.len() as int) =~= rest);
    reveal_with_fuel(fed, 4);
    let end = fed(export, device_size, first, input, 3);
    let step = option_answered(export, device_size, option, data);
    assert(end.step == step);
    assert(end.sent =~= sent + step.send);
    let info = be_bytes(device_size as nat, 8) + be_bytes(101, 2);
    assert(step.send =~= info + Seq::new(124, |i: int| 0u8) || option != 1 || !(step.next
        is Receive));
    assert(be_bytes(0, 2) + info =~= crate::nbd::go_info(device_size));
    let reason = if option == 7 {
        if go_name(data) is None {
            crate::nbd::ascii_bytes("invalid NBD_OPT_GO"@)
        } else {
            crate::nbd::ascii_bytes("unknown NBD export"@)
        }
    } else if option == 8 {
        crate::nbd::ascii_bytes("structured replies are not supported"@)
    } else {
        crate::nbd::ascii_bytes("unsupported NBD option"@)
    };
    let refused = option_answer_bytes(
        option,
        if option == 7 {
            0x8000_0003
        } else {
            0x8000_0001
        },
        reason,
    );
    assert(asked_name(7, data) == go_name(data));
    assert(is_option_answer(export, device_size, option, data, step));
}

/// The server waits for bytes of the client in this state.
pub open spec fn waits_for_client(state: NbdState) -> bool {
    match state {
        NbdState::Reading { .. } => false,
        NbdState::Writing { .. } => false,
        NbdState::Flushing { .. } => false,
        NbdState::Closing => false,
        _ => true,
    }
}

/// A client that goes away in the middle of a message ends the connection with an error, and so
/// does a failure of the backend, or anything that was not waited for. Nothing more is sent.
pub proof fn law_what_breaks_off_ends_the_connection(
    export: Seq<char>,
    device_size: u64,
    state: NbdState,
    bytes: Seq<u8>,
)
    ensures
        ({
            let after = |event: NbdEventView| advanced(export, device_size, state, event);
            &&& waits_for_client(state) && !(state is RequestMagic) && !(state is RequestHeader)
                ==> after(NbdEventView::Eof) == failed(NbdError::UnexpectedEof)
            &&& !waits_for_client(state) ==> {
                &&& after(NbdEventView::Eof) == failed(NbdError::UnexpectedEvent)
                &&& after(NbdEventView::Received { bytes }) == failed(NbdError::UnexpectedEvent)
                &&& after(NbdEventView::Failed) == failed(NbdError::Backend)
            }
            &&& waits_for_client(state) ==> {
                &&& after(NbdEventView::Data { bytes }) == failed(NbdError::UnexpectedEvent)
                &&& after(NbdEventView::Done) == failed(NbdError::UnexpectedEvent)
                &&& after(NbdEventView::Failed) == failed(NbdError::UnexpectedEvent)
            }
            &&& !(state is Reading) ==> after(NbdEventView::Data { bytes }) == failed(
                NbdError::UnexpectedEvent,
            )
            &&& state is Reading ==> after(NbdEventView::Done) == failed(NbdError::UnexpectedEvent)
        }),
        failed(NbdError::Backend).send.len() == 0,
{
}

} // verus!
