//! What a write records in the index.
use vstd::prelude::*;

use crate::ahead_laws::{
    asks_for, lemma_object_asks_first, lemma_object_asks_on, object_asks,
};
use crate::cache::{changed, changed_by, dirty_at, object_path, wal_fits, DirtyView, StoreView};
use crate::device::{
    object_at, object_resumed, object_size, patched, place_at, resumed, save_written, saving,
    span_at, write_on, write_started, written_changes, ActionView, DeviceView, ObjectOutcomeView,
    OpView, OutcomeView, ReplyView, StepView, WriteStageView,
};
use crate::device_laws::{leads_to, lemma_span, same_settings, Event, World};
use crate::digest::sha256_text;
use crate::envelope::{envelope_bytes, EnvelopeView};
use crate::index::{dirty_changes, lemma_changed_by_one, lemma_changed_by_push, lemma_changed_by_two};
use crate::index_laws::{
    law_dirty_lookup, law_written_ranges_coalesce, ranges_apart, ranges_of, written,
};
use crate::write_laws::{is_covered, lemma_next_object};

verus! {

/// The byte at `place` of the object with the number lies within `len` bytes from `offset` on,
/// where objects have the size.
pub open spec fn in_stretch(size: int, offset: int, len: int, object_id: u64, place: int) -> bool {
    0 <= place < size && offset <= object_id * size + place < offset + len
}

/// The object with the number has a byte within `len` bytes from `offset` on.
pub open spec fn meets_stretch(size: int, offset: int, len: int, object_id: u64) -> bool {
    0 < len && object_id * size < offset + len && offset < object_id * size + size
}

/// What is recorded of a dirty object: it is of the generation, in the cache file of its number
/// and generation.
pub open spec fn is_staged(
    cache_dir: Seq<char>,
    object_id: u64,
    generation: u64,
    row: Option<DirtyView>,
) -> bool {
    row matches Some(dirty) && {
        &&& dirty.object_id == object_id
        &&& dirty.generation == generation
        &&& dirty.cache_path == object_path(cache_dir, object_id, generation)
    }
}

/// The index `store` has recorded, over `before`, that `len` bytes from `offset` on were
/// written in the generation: exactly the objects met are dirty in that generation, the others
/// are as before, and exactly the bytes written are added to the written ranges.
pub open spec fn records(
    before: StoreView,
    store: StoreView,
    size: int,
    offset: int,
    len: int,
    generation: u64,
) -> bool {
    &&& forall|id: u64|
        if meets_stretch(size, offset, len, id) {
            is_staged(
                before.cache_dir,
                id,
                generation,
                #[trigger] dirty_at(store.dirty, id),
            )
        } else {
            dirty_at(store.dirty, id) == dirty_at(before.dirty, id)
        }
    &&& forall|id: u64, place: int| #[trigger]
        written(store.wal, id, generation, place) <==> written(before.wal, id, generation, place)
            || in_stretch(size, offset, len, id, place)
    &&& forall|id: u64, other: u64|
        other != generation ==> #[trigger] ranges_of(store.wal, id, other) == ranges_of(
            before.wal,
            id,
            other,
        )
}

/// No two ranges written in the generation touch, in any object.
pub open spec fn generation_apart(store: StoreView, generation: u64) -> bool {
    &&& wal_fits(store.wal)
    &&& forall|id: u64| ranges_apart(#[trigger] ranges_of(store.wal, id, generation))
}

proof fn lemma_stretch_grows(size: int, offset: int, at: int, span: int, id: u64, place: int)
    requires
        size > 0,
        0 <= offset,
        0 <= at,
        0 < span,
        (offset + at) % size + span <= size,
        (offset + at) / size <= u64::MAX,
    ensures
        ({
            let cursor = offset + at;
            let here = cursor / size;
            &&& in_stretch(size, offset, at + span, id, place) <==> in_stretch(
                size,
                offset,
                at,
                id,
                place,
            ) || (id == here && cursor % size <= place < cursor % size + span)
            &&& meets_stretch(size, offset, at + span, id) <==> meets_stretch(
                size,
                offset,
                at,
                id,
            ) || id == here
        }),
{
    let cursor = offset + at;
    let here = cursor / size;
    let rest = cursor % size;
    vstd::arithmetic::div_mod::lemma_fundamental_div_mod(cursor, size);
    assert(cursor == here * size + rest) by (nonlinear_arith)
        requires
            cursor == size * here + rest,
    ;
    if id < here {
        assert(id * size + size <= here * size) by (nonlinear_arith)
            requires
                id < here,
                size > 0,
        ;
    } else if id > here {
        assert(id * size >= here * size + size) by (nonlinear_arith)
            requires
                id > here,
                size > 0,
        ;
    } else {
        assert(id * size == here * size);
    }
}

/// What the row operations of a written object do, behind that for its cache file.
proof fn lemma_written_store(
    d: DeviceView,
    object_id: u64,
    generation: u64,
    encoded: Seq<u8>,
    place: int,
    span: int,
    now: Seq<char>,
)
    ensures
        ({
            let change = saving(d, object_id, generation, encoded, true, now);
            let saved = changed(d.store, change);
            let row = DirtyView {
                object_id,
                generation,
                cache_path: object_path(d.store.cache_dir, object_id, generation),
                sha256: sha256_text(encoded),
            };
            &&& changed_by(
                d.store,
                written_changes(d, object_id, generation, encoded, place, span, now),
            ) == changed_by(saved, dirty_changes(saved, row, place as u64, span as u64, now))
            &&& changed_by(
                saved,
                dirty_changes(saved, row, place as u64, span as u64, now),
            ).cache_dir == d.store.cache_dir
            &&& saved.dirty == d.store.dirty
            &&& saved.wal == d.store.wal
            &&& saved.cache_dir == d.store.cache_dir
        }),
{
    let changes = written_changes(d, object_id, generation, encoded, place, span, now);
    let (c0, c1, c2) = (changes[0], changes[1], changes[2]);
    lemma_changed_by_one(d.store, c0);
    lemma_changed_by_push(d.store, seq![c0], c1);
    lemma_changed_by_push(d.store, seq![c0].push(c1), c2);
    assert(changes =~= seq![c0].push(c1).push(c2));
    let saved = changed(d.store, c0);
    lemma_changed_by_two(saved, c1, c2);
    let row = DirtyView {
        object_id,
        generation,
        cache_path: object_path(d.store.cache_dir, object_id, generation),
        sha256: sha256_text(encoded),
    };
    assert(dirty_changes(saved, row, place as u64, span as u64, now) =~= seq![c1, c2]);
}

/// One object more is recorded.
proof fn lemma_records_grow(
    before: StoreView,
    d: DeviceView,
    offset: int,
    at: int,
    remaining: int,
    generation: u64,
    encoded: Seq<u8>,
    now: Seq<char>,
)
    requires
        object_size(d) > 0,
        0 <= offset,
        0 <= at,
        0 < remaining,
        offset + at <= u64::MAX,
        d.store.cache_dir == before.cache_dir,
        records(before, d.store, object_size(d), offset, at, generation),
        generation_apart(d.store, generation),
    ensures
        ({
            let cursor = offset + at;
            let span = span_at(d, cursor, remaining);
            let after = changed_by(
                d.store,
                written_changes(
                    d,
                    object_at(d, cursor),
                    generation,
                    encoded,
                    place_at(d, cursor),
                    span,
                    now,
                ),
            );
            &&& after.cache_dir == before.cache_dir
            &&& records(before, after, object_size(d), offset, at + span, generation)
            &&& generation_apart(after, generation)
        }),
{
    let size = object_size(d);
    let cursor = offset + at;
    let span = span_at(d, cursor, remaining);
    let place = place_at(d, cursor);
    let here = object_at(d, cursor);
    lemma_span(d, cursor, remaining);
    vstd::arithmetic::div_mod::lemma_fundamental_div_mod(cursor, size);
    assert(0 <= cursor / size <= cursor) by (nonlinear_arith)
        requires
            cursor == size * (cursor / size) + cursor % size,
            0 <= cursor % size < size,
            size >= 1,
            cursor >= 0,
    ;
    lemma_written_store(d, here, generation, encoded, place, span, now);
    let saved = changed(d.store, saving(d, here, generation, encoded, true, now));
    let row = DirtyView {
        object_id: here,
        generation,
        cache_path: object_path(d.store.cache_dir, here, generation),
        sha256: sha256_text(encoded),
    };
    assert(ranges_apart(ranges_of(d.store.wal, here, generation)));
    law_written_ranges_coalesce(saved, row, place as u64, span as u64, now);
    let after = changed_by(saved, dirty_changes(saved, row, place as u64, span as u64, now));
    assert forall|id: u64|
        if meets_stretch(size, offset, at + span, id) {
            is_staged(
                before.cache_dir,
                id,
                generation,
                #[trigger] dirty_at(after.dirty, id),
            )
        } else {
            dirty_at(after.dirty, id) == dirty_at(before.dirty, id)
        } by {
        lemma_stretch_grows(size, offset, at, span, id, 0);
        let same = dirty_at(d.store.dirty, id);
    }
    assert forall|id: u64, p: int| #[trigger]
        written(after.wal, id, generation, p) <==> written(before.wal, id, generation, p)
            || in_stretch(size, offset, at + span, id, p) by {
        lemma_stretch_grows(size, offset, at, span, id, p);
        let known = written(d.store.wal, id, generation, p);
        if id != here {
            assert(ranges_of(after.wal, id, generation) == ranges_of(
                d.store.wal,
                id,
                generation,
            ));
            crate::index_laws::lemma_written_in_own(after.wal, id, generation, p);
            crate::index_laws::lemma_written_in_own(d.store.wal, id, generation, p);
        }
    }
    assert forall|id: u64, other: u64| other != generation implies #[trigger] ranges_of(
        after.wal,
        id,
        other,
    ) == ranges_of(before.wal, id, other) by {
        assert(ranges_of(d.store.wal, id, other) == ranges_of(before.wal, id, other));
    }
    assert forall|id: u64| ranges_apart(#[trigger] ranges_of(after.wal, id, generation)) by {
        assert(ranges_apart(ranges_of(d.store.wal, id, generation)));
    }
}

/// What holds of a write that has come to `step`.
spec fn staging(device: DeviceView, offset: int, input: Seq<u8>, step: StepView) -> bool {
    let d = step.device;
    let generation = (device.manifest.generation + 1) as u64;
    let size = object_size(device);
    &&& same_settings(device, d)
    &&& d.manifest == device.manifest
    &&& d.store.cache_dir == device.store.cache_dir
    &&& generation_apart(d.store, generation)
    &&& match step.outcome {
        OutcomeView::Refused { .. } => exists|cut: int|
            0 <= cut <= input.len() && #[trigger] records(
                device.store,
                d.store,
                size,
                offset,
                cut,
                generation,
            ),
        OutcomeView::Finished { .. } => records(
            device.store,
            d.store,
            size,
            offset,
            input.len() as int,
            generation,
        ),
        OutcomeView::Wait { op, .. } => op matches OpView::Write {
            cursor,
            input: rest,
            at,
            stage,
        } && {
            &&& rest == input
            &&& 0 <= at < input.len()
            &&& cursor == offset + at
            &&& records(device.store, d.store, size, offset, at, generation)
            &&& stage matches WriteStageView::Saving { generation: g, .. } ==> g == generation
        },
    }
}

proof fn lemma_staging_write_on(
    device: DeviceView,
    offset: int,
    input: Seq<u8>,
    d: DeviceView,
    at: int,
)
    requires
        object_size(device) > 0,
        0 <= offset,
        0 <= at <= input.len(),
        same_settings(device, d),
        d.manifest == device.manifest,
        d.store.cache_dir == device.store.cache_dir,
        generation_apart(d.store, (device.manifest.generation + 1) as u64),
        records(
            device.store,
            d.store,
            object_size(device),
            offset,
            at,
            (device.manifest.generation + 1) as u64,
        ),
    ensures
        staging(
            device,
            offset,
            input,
            (StepView {
                device: d,
                changes: Seq::empty(),
                outcome: write_on(d, offset + at, input, at),
            }),
        ),
{
}

proof fn lemma_object_step_stages_nothing(
    device: DeviceView,
    stage: crate::device::ObjectStageView,
    reply: ReplyView,
    now: Seq<char>,
)
    ensures
        ({
            let step = object_resumed(device, stage, reply, now);
            &&& same_settings(device, step.device)
            &&& step.device.manifest == device.manifest
            &&& step.device.store.dirty == device.store.dirty
            &&& step.device.store.wal == device.store.wal
            &&& step.device.store.cache_dir == device.store.cache_dir
        }),
{
}

proof fn lemma_staging_resumed(
    device: DeviceView,
    offset: int,
    input: Seq<u8>,
    step: StepView,
    reply: ReplyView,
    now: Seq<char>,
)
    requires
        object_size(device) > 0,
        0 <= offset,
        offset + input.len() <= u64::MAX,
        staging(device, offset, input, step),
        step.outcome is Wait,
    ensures
        staging(device, offset, input, resumed(step.device, step.outcome->Wait_op, reply, now)),
{
    let d = step.device;
    let generation = (device.manifest.generation + 1) as u64;
    match step.outcome->Wait_op {
        OpView::Write { cursor, at, stage, .. } => match stage {
            WriteStageView::Reading { stage } => {
                lemma_object_step_stages_nothing(d, stage, reply, now);
                let inner = object_resumed(d, stage, reply, now);
                assert(records(
                    device.store,
                    inner.device.store,
                    object_size(device),
                    offset,
                    at,
                    generation,
                ));
            },
            WriteStageView::Saving { encoded, .. } => {
                assert(records(
                    device.store,
                    d.store,
                    object_size(device),
                    offset,
                    at,
                    generation,
                ));
                if reply is Done {
                    let remaining = input.len() - at;
                    lemma_span(d, cursor, remaining);
                    lemma_records_grow(
                        device.store,
                        d,
                        offset,
                        at,
                        remaining,
                        generation,
                        encoded,
                        now,
                    );
                    let span = span_at(d, cursor, remaining);
                    let store = changed_by(
                        d.store,
                        written_changes(
                            d,
                            object_at(d, cursor),
                            generation,
                            encoded,
                            place_at(d, cursor),
                            span,
                            now,
                        ),
                    );
                    lemma_staging_write_on(
                        device,
                        offset,
                        input,
                        DeviceView { store, ..d },
                        at + span,
                    );
                }
            },
        },
        _ => {},
    }
}

proof fn lemma_staging_leads(
    device: DeviceView,
    offset: int,
    input: Seq<u8>,
    step: StepView,
    world: World,
    events: Seq<Event>,
    last: StepView,
    after: World,
)
    requires
        object_size(device) > 0,
        0 <= offset,
        offset + input.len() <= u64::MAX,
        staging(device, offset, input, step),
        leads_to(step, world, events, last, after),
    ensures
        staging(device, offset, input, last),
    decreases events.len(),
{
    if events.len() > 0 {
        let event = events[0];
        lemma_staging_resumed(device, offset, input, step, event.reply, event.now);
        lemma_staging_leads(
            device,
            offset,
            input,
            resumed(step.device, step.outcome->Wait_op, event.reply, event.now),
            event.world,
            events.skip(1),
            last,
            after,
        );
    }
}

/// A write that finishes has recorded itself: exactly the objects that it meets are dirty in
/// the generation behind the manifest's, each in the cache file of its number and that
/// generation, all others are dirty or clean as before, and exactly the bytes written are
/// added to the written ranges, those of other generations unchanged. A write that is refused
/// has recorded a first part of itself so.
pub proof fn law_write_records_itself(
    device: DeviceView,
    world: World,
    offset: int,
    input: Seq<u8>,
    events: Seq<Event>,
    last: StepView,
    after: World,
)
    requires
        object_size(device) > 0,
        0 <= offset,
        offset + input.len() <= u64::MAX,
        device.manifest.generation < u64::MAX,
        generation_apart(device.store, (device.manifest.generation + 1) as u64),
        leads_to(write_started(device, offset, input), world, events, last, after),
    ensures
        ({
            let generation = (device.manifest.generation + 1) as u64;
            let size = object_size(device);
            &&& generation_apart(last.device.store, generation)
            &&& last.outcome is Finished ==> records(
                device.store,
                last.device.store,
                size,
                offset,
                input.len() as int,
                generation,
            )
            &&& last.outcome is Refused ==> exists|cut: int|
                0 <= cut <= input.len() && #[trigger] records(
                    device.store,
                    last.device.store,
                    size,
                    offset,
                    cut,
                    generation,
                )
        }),
{
    let generation = (device.manifest.generation + 1) as u64;
    assert(records(device.store, device.store, object_size(device), offset, 0, generation));
    let first = write_started(device, offset, input);
    if offset + input.len() <= device.map.device_size {
        lemma_staging_write_on(device, offset, input, device, 0);
    }
    lemma_staging_leads(device, offset, input, first, world, events, last, after);
}

/// What a write of `len` bytes from `offset` on may ask for: what it takes to read an object that
/// it does not overwrite as a whole, or to save the stored form of an object that it meets, of
/// the generation behind the manifest's, with the device's object size and no flags.
pub open spec fn may_ask_to_write(
    device: DeviceView,
    offset: int,
    len: int,
    cursor: int,
    action: ActionView,
) -> bool {
    let id = object_at(device, cursor);
    &&& offset <= cursor < offset + len
    &&& {
        ||| !is_covered(device, offset, len, cursor) && asks_for(device, id, action)
        ||| saves_object(device, id, action)
    }
}

/// The action saves the stored form of the object, of the generation behind the manifest's.
pub open spec fn saves_object(device: DeviceView, object_id: u64, action: ActionView) -> bool {
    exists|payload: Seq<u8>|
        #![trigger stored_bytes(device, object_id, payload)]
        payload.len() == device.map.object_size && action == (ActionView::WriteFile {
            path: object_path(
                device.store.cache_dir,
                object_id,
                (device.manifest.generation + 1) as u64,
            ),
            bytes: stored_bytes(device, object_id, payload),
        })
}

/// The stored form of an object of the generation behind the manifest's.
pub open spec fn stored_bytes(device: DeviceView, object_id: u64, payload: Seq<u8>) -> Seq<u8> {
    envelope_bytes(
        EnvelopeView {
            object_id,
            generation: (device.manifest.generation + 1) as u64,
            object_size: device.map.object_size,
            flags: 0,
            payload,
        },
    )
}

/// What a write on its way waits for.
spec fn write_asking(device: DeviceView, offset: int, input: Seq<u8>, step: StepView) -> bool {
    let d = step.device;
    &&& same_settings(device, d)
    &&& d.manifest == device.manifest
    &&& d.store.cache_dir == device.store.cache_dir
    &&& step.outcome matches OutcomeView::Wait { op, action } ==> op matches OpView::Write {
        cursor,
        input: whole,
        at,
        stage,
    } && {
        &&& whole == input
        &&& 0 <= at < input.len()
        &&& cursor == offset + at
        &&& at == 0 || place_at(device, cursor) == 0
        &&& untouched(device, d, cursor)
        &&& match stage {
            WriteStageView::Reading { stage } => {
                &&& !is_covered(device, offset, input.len() as int, cursor)
                &&& object_asks(device, object_at(device, cursor), stage, action)
            },
            WriteStageView::Saving { .. } => saves_object(
                device,
                object_at(device, cursor),
                action,
            ),
        }
    }
}

/// The objects from the cursor on are dirty or clean as before.
spec fn untouched(device: DeviceView, d: DeviceView, cursor: int) -> bool {
    forall|id: u64|
        id >= cursor / object_size(device) ==> #[trigger] dirty_at(d.store.dirty, id) == dirty_at(
            device.store.dirty,
            id,
        )
}

proof fn lemma_save_asks(
    device: DeviceView,
    offset: int,
    input: Seq<u8>,
    d: DeviceView,
    at: int,
    object: Seq<u8>,
)
    requires
        object_size(device) > 0,
        0 <= offset,
        0 <= at < input.len(),
        offset + input.len() <= device.map.device_size,
        same_settings(device, d),
        d.manifest == device.manifest,
        d.store.cache_dir == device.store.cache_dir,
        at == 0 || place_at(device, offset + at) == 0,
        untouched(device, d, offset + at),
        object.len() == object_size(device),
    ensures
        write_asking(
            device,
            offset,
            input,
            StepView {
                device: d,
                changes: Seq::empty(),
                outcome: save_written(d, offset + at, input, at, object),
            },
        ),
{
    let cursor = offset + at;
    let span = span_at(d, cursor, input.len() - at);
    lemma_span(d, cursor, input.len() - at);
    let payload = patched(object, place_at(d, cursor), input.subrange(at, at + span));
    assert(payload.len() == device.map.object_size);
    match save_written(d, cursor, input, at, object) {
        OutcomeView::Wait { action, .. } => {
            assert(action == (ActionView::WriteFile {
                path: object_path(
                    device.store.cache_dir,
                    object_at(device, cursor),
                    (device.manifest.generation + 1) as u64,
                ),
                bytes: stored_bytes(device, object_at(device, cursor), payload),
            }));
            assert(saves_object(device, object_at(device, cursor), action));
        },
        _ => {},
    }
}

proof fn lemma_write_asks(
    device: DeviceView,
    offset: int,
    input: Seq<u8>,
    d: DeviceView,
    at: int,
)
    requires
        object_size(device) > 0,
        0 <= offset,
        0 <= at <= input.len(),
        offset + input.len() <= device.map.device_size,
        same_settings(device, d),
        d.manifest == device.manifest,
        d.store.cache_dir == device.store.cache_dir,
        at < input.len() ==> at == 0 || place_at(device, offset + at) == 0,
        at < input.len() ==> untouched(device, d, offset + at),
    ensures
        write_asking(
            device,
            offset,
            input,
            StepView {
                device: d,
                changes: Seq::empty(),
                outcome: write_on(d, offset + at, input, at),
            },
        ),
{
    if at < input.len() {
        let cursor = offset + at;
        let size = object_size(device);
        let span = span_at(d, cursor, input.len() - at);
        lemma_span(d, cursor, input.len() - at);
        if span == size {
            lemma_save_asks(device, offset, input, d, at, crate::device::zeros(size));
        } else {
            vstd::arithmetic::div_mod::lemma_mod_bound(cursor, size);
            assert(!is_covered(device, offset, input.len() as int, cursor));
            assert(object_at(device, cursor) >= cursor / size) by {
                lemma_number_fits(cursor, size);
            }
            lemma_object_asks_first(device, d, object_at(device, cursor));
            match crate::device::object_started(d, object_at(d, cursor)) {
                ObjectOutcomeView::Read { bytes } => {
                    lemma_save_asks(device, offset, input, d, at, bytes);
                },
                _ => {},
            }
        }
    }
}

proof fn lemma_number_fits(cursor: int, size: int)
    requires
        0 <= cursor <= u64::MAX,
        0 < size,
    ensures
        0 <= cursor / size <= cursor,
{
    vstd::arithmetic::div_mod::lemma_div_pos_is_pos(cursor, size);
    vstd::arithmetic::div_mod::lemma_div_is_ordered_by_denominator(cursor, 1, size);
    vstd::arithmetic::div_mod::lemma_div_basics(cursor);
}

/// The dirty objects after a written object was recorded.
proof fn lemma_written_dirty(
    d: DeviceView,
    object_id: u64,
    generation: u64,
    encoded: Seq<u8>,
    place: int,
    span: int,
    now: Seq<char>,
    other: u64,
)
    requires
        other != object_id,
    ensures
        ({
            let after = changed_by(
                d.store,
                written_changes(d, object_id, generation, encoded, place, span, now),
            );
            &&& dirty_at(after.dirty, other) == dirty_at(d.store.dirty, other)
            &&& after.cache_dir == d.store.cache_dir
        }),
{
    lemma_written_store(d, object_id, generation, encoded, place, span, now);
    let saved = changed(d.store, saving(d, object_id, generation, encoded, true, now));
    let row = DirtyView {
        object_id,
        generation,
        cache_path: object_path(d.store.cache_dir, object_id, generation),
        sha256: sha256_text(encoded),
    };
    let changes = dirty_changes(saved, row, place as u64, span as u64, now);
    lemma_changed_by_two(saved, changes[0], changes[1]);
    assert(changes =~= seq![changes[0], changes[1]]);
    law_dirty_lookup(saved.dirty, row, other);
}

proof fn lemma_reading_asks_on(
    device: DeviceView,
    offset: int,
    input: Seq<u8>,
    step: StepView,
    event: Event,
)
    requires
        object_size(device) > 0,
        0 <= offset,
        offset + input.len() <= device.map.device_size,
        write_asking(device, offset, input, step),
        step.outcome matches OutcomeView::Wait { op, .. } && op matches OpView::Write { stage, .. }
            && stage is Reading,
    ensures
        write_asking(
            device,
            offset,
            input,
            resumed(step.device, step.outcome->Wait_op, event.reply, event.now),
        ),
{
    let d = step.device;
    match step.outcome {
        OutcomeView::Wait {
            op: OpView::Write { cursor, at, stage: WriteStageView::Reading { stage }, .. },
            action,
        } => {
            let id = object_at(device, cursor);
            let inner = object_resumed(d, stage, event.reply, event.now);
            lemma_object_asks_on(device, d, id, stage, action, event.reply, event.now);
            match inner.outcome {
                ObjectOutcomeView::Read { bytes } => {
                    lemma_save_asks(device, offset, input, inner.device, at, bytes);
                },
                _ => {},
            }
        },
        _ => {},
    }
}

proof fn lemma_saving_asks_on(
    device: DeviceView,
    offset: int,
    input: Seq<u8>,
    d: DeviceView,
    at: int,
    generation: u64,
    encoded: Seq<u8>,
    now: Seq<char>,
)
    requires
        object_size(device) > 0,
        0 <= offset,
        0 <= at < input.len(),
        offset + input.len() <= device.map.device_size,
        same_settings(device, d),
        d.manifest == device.manifest,
        d.store.cache_dir == device.store.cache_dir,
        at == 0 || place_at(device, offset + at) == 0,
        untouched(device, d, offset + at),
    ensures
        ({
            let cursor = offset + at;
            let span = span_at(d, cursor, input.len() - at);
            let changes = written_changes(
                d,
                object_at(d, cursor),
                generation,
                encoded,
                place_at(d, cursor),
                span,
                now,
            );
            let after = DeviceView { store: changed_by(d.store, changes), ..d };
            write_asking(
                device,
                offset,
                input,
                StepView {
                    device: after,
                    changes: Seq::empty(),
                    outcome: write_on(after, cursor + span, input, at + span),
                },
            )
        }),
{
    let size = object_size(device);
    let cursor = offset + at;
    let id = object_at(d, cursor);
    let place = place_at(d, cursor);
    let span = span_at(d, cursor, input.len() - at);
    lemma_number_fits(cursor, size);
    lemma_span(d, cursor, input.len() - at);
    let changes = written_changes(d, id, generation, encoded, place, span, now);
    let after = DeviceView { store: changed_by(d.store, changes), ..d };
    let other: u64 = if id == 0 {
        1
    } else {
        0
    };
    lemma_written_dirty(d, id, generation, encoded, place, span, now, other);
    if at + span < input.len() {
        lemma_next_object(device, cursor, input.len() - at);
        lemma_later_number(cursor, span, size);
        assert forall|other: u64| other >= (cursor + span) / size implies #[trigger] dirty_at(
            after.store.dirty,
            other,
        ) == dirty_at(device.store.dirty, other) by {
            lemma_written_dirty(d, id, generation, encoded, place, span, now, other);
        }
    }
    lemma_write_asks(device, offset, input, after, at + span);
}

proof fn lemma_write_asks_on(
    device: DeviceView,
    offset: int,
    input: Seq<u8>,
    step: StepView,
    event: Event,
)
    requires
        object_size(device) > 0,
        0 <= offset,
        offset + input.len() <= device.map.device_size,
        write_asking(device, offset, input, step),
        step.outcome is Wait,
    ensures
        write_asking(
            device,
            offset,
            input,
            resumed(step.device, step.outcome->Wait_op, event.reply, event.now),
        ),
{
    match step.outcome {
        OutcomeView::Wait { op: OpView::Write { at, stage, .. }, .. } => match stage {
            WriteStageView::Reading { .. } => {
                lemma_reading_asks_on(device, offset, input, step, event);
            },
            WriteStageView::Saving { generation, encoded } => {
                lemma_saving_asks_on(
                    device,
                    offset,
                    input,
                    step.device,
                    at,
                    generation,
                    encoded,
                    event.now,
                );
            },
        },
        _ => {},
    }
}

proof fn lemma_later_number(cursor: int, span: int, size: int)
    requires
        0 < size,
        0 <= cursor,
        cursor % size + span == size,
    ensures
        (cursor + span) / size == cursor / size + 1,
{
    let q = cursor / size;
    vstd::arithmetic::div_mod::lemma_fundamental_div_mod(cursor, size);
    assert((q + 1) * size == size * q + size) by (nonlinear_arith);
    vstd::arithmetic::div_mod::lemma_fundamental_div_mod_converse(cursor + span, size, q + 1, 0);
}

proof fn lemma_leads_write_asks(
    device: DeviceView,
    offset: int,
    input: Seq<u8>,
    step: StepView,
    world: World,
    events: Seq<Event>,
    last: StepView,
    after: World,
)
    requires
        object_size(device) > 0,
        0 <= offset,
        offset + input.len() <= device.map.device_size,
        write_asking(device, offset, input, step),
        leads_to(step, world, events, last, after),
    ensures
        write_asking(device, offset, input, last),
    decreases events.len(),
{
    if events.len() > 0 {
        let event = events[0];
        let next = resumed(step.device, step.outcome->Wait_op, event.reply, event.now);
        lemma_write_asks_on(device, offset, input, step, event);
        lemma_leads_write_asks(
            device,
            offset,
            input,
            next,
            event.world,
            events.skip(1),
            last,
            after,
        );
    }
}

/// A write asks only for what belongs to it: whatever it waits for on its way reads an object that
/// it overwrites in part, or saves the stored form of an object that it meets. An object that it
/// overwrites as a whole is neither read nor fetched.
pub proof fn law_writes_ask_only_for_their_objects(
    device: DeviceView,
    world: World,
    offset: int,
    input: Seq<u8>,
    events: Seq<Event>,
    last: StepView,
    after: World,
)
    requires
        object_size(device) > 0,
        0 <= offset,
        leads_to(write_started(device, offset, input), world, events, last, after),
    ensures
        last.outcome matches OutcomeView::Wait { action, .. } ==> exists|cursor: int| #[trigger]
            may_ask_to_write(device, offset, input.len() as int, cursor, action),
{
    let first = write_started(device, offset, input);
    reveal_with_fuel(leads_to, 2);
    if offset + input.len() <= device.map.device_size {
        lemma_write_asks(device, offset, input, device, 0);
        lemma_leads_write_asks(device, offset, input, first, world, events, last, after);
        match last.outcome {
            OutcomeView::Wait { op: OpView::Write { cursor, stage, .. }, action } => {
                match stage {
                    WriteStageView::Reading { stage } => {
                        crate::ahead_laws::lemma_copy(device, object_at(device, cursor));
                        assert(asks_for(device, object_at(device, cursor), action));
                    },
                    _ => {},
                }
                assert(may_ask_to_write(device, offset, input.len() as int, cursor, action));
            },
            _ => {},
        }
    }
}

} // verus!
