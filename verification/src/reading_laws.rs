//! What reads tell of each other, of writes and of flushes.
use vstd::prelude::*;

use crate::cache::{dirty_at, dirty_in_order};
use crate::device::{
    flush_started, object_at, object_size, read_started, write_started, DeviceError, DeviceView,
    OutcomeView, StepView,
};
use crate::device_laws::{
    device_byte, is_read, keeps_content, law_read_returns_content, leads_to, object_content,
    outside_failed, own_files_agree, row_apart, rows_apart, unreadable, Event, World,
};
use crate::flush_laws::law_flush_makes_durable;
use crate::write_laws::law_write_changes_its_bytes_only;

verus! {

/// A read that finishes hands back as many bytes as were asked for; one that reaches beyond
/// the device is refused at once, changes nothing and is never shortened.
pub proof fn law_reads_are_never_shortened(
    device: DeviceView,
    world: World,
    offset: int,
    len: int,
    events: Seq<Event>,
    last: StepView,
    after: World,
)
    requires
        object_size(device) > 0,
        0 <= offset,
        0 <= len,
        rows_apart(device.store.dirty, device.store.cache_dir),
        leads_to(read_started(device, offset, len), world, events, last, after),
    ensures
        last.outcome matches OutcomeView::Finished { bytes } ==> bytes.len() == len && offset + len
            <= device.map.device_size,
        offset + len > device.map.device_size ==> {
            &&& last.outcome == (OutcomeView::Refused { error: DeviceError::ReadOutOfBounds })
            &&& last.device == device
            &&& after == world
        },
{
    law_read_returns_content(device, world, offset, len, events, last, after);
}

/// What came of a read: it finished with the bytes that the device holds, or was refused
/// with a reason for it.
pub open spec fn read_came_to(
    device: DeviceView,
    world: World,
    offset: int,
    len: int,
    events: Seq<Event>,
    outcome: OutcomeView,
) -> bool {
    match outcome {
        OutcomeView::Finished { bytes } => {
            &&& is_read(device, world, offset, bytes, len)
            &&& offset + len <= device.map.device_size
        },
        OutcomeView::Refused { error } => {
            ||| outside_failed(events, error)
            ||| error == DeviceError::ReadOutOfBounds && offset + len > device.map.device_size
            ||| unreadable(device, world, offset, len)
        },
        OutcomeView::Wait { .. } => true,
    }
}

proof fn lemma_read_comes_to(
    device: DeviceView,
    world: World,
    offset: int,
    len: int,
    events: Seq<Event>,
    last: StepView,
    after: World,
)
    requires
        object_size(device) > 0,
        0 <= offset,
        0 <= len,
        rows_apart(device.store.dirty, device.store.cache_dir),
        leads_to(read_started(device, offset, len), world, events, last, after),
    ensures
        read_came_to(device, world, offset, len, events, last.outcome),
{
    law_read_returns_content(device, world, offset, len, events, last, after);
    law_reads_are_never_shortened(device, world, offset, len, events, last, after);
}

/// Of two reads in the same state, one within the other, the inner one gives a part of what
/// the outer one gives, and is refused only where outside work failed.
proof fn lemma_inner_read(
    device: DeviceView,
    world: World,
    offset: int,
    bytes: Seq<u8>,
    at: int,
    len: int,
    events: Seq<Event>,
    outcome: OutcomeView,
)
    requires
        is_read(device, world, offset, bytes, bytes.len() as int),
        offset + bytes.len() <= device.map.device_size,
        0 <= at <= at + len <= bytes.len(),
        read_came_to(device, world, offset + at, len, events, outcome),
    ensures
        outcome matches OutcomeView::Finished { bytes: part } ==> part == bytes.subrange(
            at,
            at + len,
        ),
        outcome matches OutcomeView::Refused { error } ==> outside_failed(events, error),
{
    match outcome {
        OutcomeView::Finished { bytes: part } => {
            assert forall|p: int| 0 <= p < len implies part[p] == bytes[at + p] by {
                assert(device_byte(device, world, offset + (at + p)) == Some(bytes[at + p]));
                assert(device_byte(device, world, (offset + at) + p) == Some(part[p]));
            }
            assert(part =~= bytes.subrange(at, at + len));
        },
        OutcomeView::Refused { .. } => {
            if unreadable(device, world, offset + at, len) {
                let q = choose|q: int|
                    offset + at <= q < offset + at + len && #[trigger] device_byte(
                        device,
                        world,
                        q,
                    ) is None;
                assert(device_byte(device, world, offset + (q - offset)) == Some(
                    bytes[q - offset],
                ));
            }
        },
        _ => {},
    }
}

/// Where two parts can be read, the whole can.
proof fn lemma_parts_are_read(
    device: DeviceView,
    world: World,
    offset: int,
    head: Seq<u8>,
    tail: Seq<u8>,
)
    requires
        is_read(device, world, offset, head, head.len() as int),
        is_read(device, world, offset + head.len(), tail, tail.len() as int),
    ensures
        is_read(device, world, offset, head + tail, (head + tail).len() as int),
{
    let whole = head + tail;
    assert forall|p: int| 0 <= p < whole.len() implies device_byte(device, world, offset + p)
        == Some(#[trigger] whole[p]) by {
        if p < head.len() {
            assert(device_byte(device, world, offset + p) == Some(head[p]));
        } else {
            let q = p - head.len();
            assert(device_byte(device, world, (offset + head.len()) + q) == Some(tail[q]));
        }
    }
}

/// Reads of two places that border on each other, in the same state of the device, join to
/// the read of both: where they finish, the bytes of the whole are those of the first part
/// and behind them those of the second. Where the whole finishes, a part is refused only
/// where outside work failed, and so is the whole where both parts finish.
pub proof fn law_reads_join(
    device: DeviceView,
    world: World,
    offset: int,
    left_len: int,
    right_len: int,
    whole_events: Seq<Event>,
    whole: StepView,
    whole_after: World,
    left_events: Seq<Event>,
    left: StepView,
    left_after: World,
    right_events: Seq<Event>,
    right: StepView,
    right_after: World,
)
    requires
        object_size(device) > 0,
        0 <= offset,
        0 <= left_len,
        0 <= right_len,
        rows_apart(device.store.dirty, device.store.cache_dir),
        leads_to(
            read_started(device, offset, left_len + right_len),
            world,
            whole_events,
            whole,
            whole_after,
        ),
        leads_to(read_started(device, offset, left_len), world, left_events, left, left_after),
        leads_to(
            read_started(device, offset + left_len, right_len),
            world,
            right_events,
            right,
            right_after,
        ),
    ensures
        match (whole.outcome, left.outcome, right.outcome) {
            (
                OutcomeView::Finished { bytes },
                OutcomeView::Finished { bytes: head },
                OutcomeView::Finished { bytes: tail },
            ) => bytes == head + tail,
            _ => true,
        },
        whole.outcome is Finished ==> {
            &&& left.outcome matches OutcomeView::Refused { error } ==> outside_failed(
                left_events,
                error,
            )
            &&& right.outcome matches OutcomeView::Refused { error } ==> outside_failed(
                right_events,
                error,
            )
        },
        left.outcome is Finished && right.outcome is Finished ==> (whole.outcome
            matches OutcomeView::Refused { error } ==> outside_failed(whole_events, error)),
{
    let len = left_len + right_len;
    lemma_read_comes_to(device, world, offset, len, whole_events, whole, whole_after);
    lemma_read_comes_to(device, world, offset, left_len, left_events, left, left_after);
    lemma_read_comes_to(
        device,
        world,
        offset + left_len,
        right_len,
        right_events,
        right,
        right_after,
    );
    match whole.outcome {
        OutcomeView::Finished { bytes } => {
            lemma_inner_read(
                device,
                world,
                offset,
                bytes,
                0,
                left_len,
                left_events,
                left.outcome,
            );
            lemma_inner_read(
                device,
                world,
                offset,
                bytes,
                left_len,
                right_len,
                right_events,
                right.outcome,
            );
            assert(bytes =~= bytes.subrange(0, left_len) + bytes.subrange(left_len, len));
        },
        OutcomeView::Refused { .. } => match (left.outcome, right.outcome) {
            (OutcomeView::Finished { bytes: head }, OutcomeView::Finished { bytes: tail }) => {
                lemma_parts_are_read(device, world, offset, head, tail);
                lemma_inner_read(
                    device,
                    world,
                    offset,
                    head + tail,
                    0,
                    len,
                    whole_events,
                    whole.outcome,
                );
            },
            _ => {},
        },
        _ => {},
    }
}

/// Where content is kept, a byte that could be read stays what it was.
proof fn lemma_byte_kept(
    device: DeviceView,
    world: World,
    other: DeviceView,
    after: World,
    position: int,
)
    requires
        keeps_content(device, world, other, after),
        other.map == device.map,
        device_byte(device, world, position) is Some,
    ensures
        device_byte(other, after, position) == device_byte(device, world, position),
{
    assert(object_content(device, world, object_at(device, position)) is Some);
}

/// What could be read can be read again, where every byte of it is the same.
proof fn lemma_read_again(
    device: DeviceView,
    world: World,
    other: DeviceView,
    between: World,
    offset: int,
    bytes: Seq<u8>,
    events: Seq<Event>,
    last: StepView,
    after: World,
)
    requires
        object_size(other) > 0,
        0 <= offset,
        offset + bytes.len() <= other.map.device_size,
        other.map == device.map,
        rows_apart(other.store.dirty, other.store.cache_dir),
        is_read(device, world, offset, bytes, bytes.len() as int),
        keeps_content(device, world, other, between),
        leads_to(
            read_started(other, offset, bytes.len() as int),
            between,
            events,
            last,
            after,
        ),
    ensures
        last.outcome matches OutcomeView::Finished { bytes: again } ==> again == bytes,
        last.outcome matches OutcomeView::Refused { error } ==> outside_failed(events, error),
{
    let len = bytes.len() as int;
    law_read_returns_content(other, between, offset, len, events, last, after);
    assert forall|p: int| 0 <= p < len implies #[trigger] device_byte(other, between, offset + p)
        == Some(bytes[p]) by {
        assert(device_byte(device, world, offset + p) == Some(bytes[p]));
        lemma_byte_kept(device, world, other, between, offset + p);
    }
    match last.outcome {
        OutcomeView::Finished { bytes: again } => {
            assert forall|p: int| 0 <= p < len implies again[p] == bytes[p] by {
                assert(device_byte(other, between, offset + p) == Some(again[p]));
            }
            assert(again =~= bytes);
        },
        OutcomeView::Refused { error } => {
            if unreadable(other, between, offset, len) {
                let at = choose|at: int|
                    offset <= at < offset + len && #[trigger] device_byte(other, between, at)
                        is None;
                assert(device_byte(other, between, offset + (at - offset)) is Some);
            }
        },
        _ => {},
    }
}

/// Reading twice gives the same bytes; the second read is refused only where outside work
/// failed.
pub proof fn law_reads_repeat(
    device: DeviceView,
    world: World,
    offset: int,
    len: int,
    first_events: Seq<Event>,
    first: StepView,
    between: World,
    events: Seq<Event>,
    last: StepView,
    after: World,
)
    requires
        object_size(device) > 0,
        0 <= offset,
        0 <= len,
        rows_apart(device.store.dirty, device.store.cache_dir),
        leads_to(read_started(device, offset, len), world, first_events, first, between),
        first.outcome is Finished,
        leads_to(read_started(first.device, offset, len), between, events, last, after),
    ensures
        last.outcome is Finished ==> last.outcome == first.outcome,
        last.outcome matches OutcomeView::Refused { error } ==> outside_failed(events, error),
{
    law_read_returns_content(device, world, offset, len, first_events, first, between);
    law_reads_are_never_shortened(device, world, offset, len, first_events, first, between);
    lemma_read_again(
        device,
        world,
        first.device,
        between,
        offset,
        first.outcome->Finished_bytes,
        events,
        last,
        after,
    );
}

/// A flush shows in no read: whether it finished, was refused or is still on its way, what
/// was read just before it is read again just after it; that read is refused only where
/// outside work failed.
pub proof fn law_flush_shows_in_no_read(
    device: DeviceView,
    world: World,
    offset: int,
    len: int,
    read_events: Seq<Event>,
    read: StepView,
    before: World,
    flush_events: Seq<Event>,
    flush: StepView,
    between: World,
    events: Seq<Event>,
    last: StepView,
    after: World,
)
    requires
        object_size(device) > 0,
        0 <= offset,
        0 <= len,
        dirty_in_order(device.store.dirty),
        rows_apart(device.store.dirty, device.store.cache_dir),
        own_files_agree(device, world),
        leads_to(read_started(device, offset, len), world, read_events, read, before),
        read.outcome is Finished,
        leads_to(flush_started(read.device), before, flush_events, flush, between),
        leads_to(read_started(flush.device, offset, len), between, events, last, after),
    ensures
        last.outcome is Finished ==> last.outcome == read.outcome,
        last.outcome matches OutcomeView::Refused { error } ==> outside_failed(events, error),
{
    law_read_returns_content(device, world, offset, len, read_events, read, before);
    law_reads_are_never_shortened(device, world, offset, len, read_events, read, before);
    law_flush_makes_durable(read.device, before, flush_events, flush, between);
    if flush.outcome is Finished {
        reveal(rows_apart);
        let store = flush.device.store;
        assert forall|id: u64, other_id: u64, generation: u64| #[trigger]
            row_apart(store.dirty, store.cache_dir, id, other_id, generation) by {
            assert(dirty_at(store.dirty, id) is None);
        }
    }
    let bytes = read.outcome->Finished_bytes;
    assert(keeps_content(device, world, flush.device, between)) by {
        assert forall|id: u64| (#[trigger] object_content(device, world, id)) is Some implies
            object_content(flush.device, between, id) == object_content(device, world, id) by {
            assert(object_content(read.device, before, id) == object_content(device, world, id));
        }
    }
    lemma_read_again(
        device,
        world,
        flush.device,
        between,
        offset,
        bytes,
        events,
        last,
        after,
    );
}

/// A write shows in the whole device and nowhere else: where the whole device was read
/// before a write that finished, reading the whole device after it gives the written bytes
/// at the written place and the bytes of before everywhere else; that read is refused only
/// where outside work failed.
pub proof fn law_write_shows_in_the_whole_device(
    device: DeviceView,
    world: World,
    read_events: Seq<Event>,
    read: StepView,
    before: World,
    offset: int,
    input: Seq<u8>,
    write_events: Seq<Event>,
    write: StepView,
    between: World,
    events: Seq<Event>,
    last: StepView,
    after: World,
)
    requires
        object_size(device) > 0,
        0 <= offset,
        rows_apart(device.store.dirty, device.store.cache_dir),
        leads_to(
            read_started(device, 0, device.map.device_size as int),
            world,
            read_events,
            read,
            before,
        ),
        read.outcome is Finished,
        leads_to(write_started(read.device, offset, input), before, write_events, write, between),
        write.outcome is Finished,
        leads_to(
            read_started(write.device, 0, device.map.device_size as int),
            between,
            events,
            last,
            after,
        ),
    ensures
        last.outcome matches OutcomeView::Finished { bytes } ==> bytes == Seq::new(
            device.map.device_size as nat,
            |i: int|
                if offset <= i < offset + input.len() {
                    input[i - offset]
                } else {
                    read.outcome->Finished_bytes[i]
                },
        ),
        last.outcome matches OutcomeView::Refused { error } ==> outside_failed(events, error),
{
    let size = device.map.device_size as int;
    let old_bytes = read.outcome->Finished_bytes;
    law_read_returns_content(device, world, 0, size, read_events, read, before);
    law_write_changes_its_bytes_only(
        read.device,
        before,
        offset,
        input,
        write_events,
        write,
        between,
    );
    law_read_returns_content(write.device, between, 0, size, events, last, after);
    let new_bytes = Seq::new(
        device.map.device_size as nat,
        |i: int|
            if offset <= i < offset + input.len() {
                input[i - offset]
            } else {
                old_bytes[i]
            },
    );
    assert forall|i: int| 0 <= i < size implies #[trigger] device_byte(write.device, between, i)
        == Some(new_bytes[i]) by {
        assert(device_byte(device, world, 0 + i) == Some(old_bytes[i]));
        lemma_byte_kept(device, world, read.device, before, i);
    }
    match last.outcome {
        OutcomeView::Finished { bytes } => {
            assert forall|i: int| 0 <= i < size implies bytes[i] == new_bytes[i] by {
                assert(device_byte(write.device, between, 0 + i) == Some(bytes[i]));
            }
            assert(bytes =~= new_bytes);
        },
        OutcomeView::Refused { error } => {
            if unreadable(write.device, between, 0, size) {
                let at = choose|at: int|
                    0 <= at < 0 + size && #[trigger] device_byte(write.device, between, at) is None;
                assert(device_byte(write.device, between, at) is Some);
            }
        },
        _ => {},
    }
}

} // verus!
