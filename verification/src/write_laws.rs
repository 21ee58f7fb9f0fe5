//! What the device promises of writes.
use vstd::prelude::*;

use crate::cache::{
    changed, changed_by, dirty_at, law_object_paths_are_distinct, object_path, put_dirty, DirtyView,
    StoreView,
};
use crate::device::{
    object_at, object_resumed, object_size, object_started, padded, patched, place_at, resumed,
    save_written, span_at, stored_place, write_on, write_started, written_changes, ActionView,
    DeviceError, DeviceView, ObjectOutcomeView, OpView, OutcomeView, ReplyView, StepView,
    WriteStageView,
};
use crate::device_laws::{
    answered, backed, device_byte, leads_to, lemma_grown_keeps_content, lemma_object_resumed,
    lemma_object_started, lemma_positions, lemma_span, object_content, outside_failed,
    own_file_agrees, own_files_agree, path_of, row_apart, rows_apart, same_settings, stage_ok, without_files, Event,
    World,
};
use crate::digest::sha256_text;
use crate::envelope::{envelope_bytes, law_envelope_round_trip, EnvelopeView};
use crate::index::{lemma_changed_by_one, lemma_changed_by_push};
use crate::index_laws::law_dirty_lookup;
use crate::manifest::{entry_index, lemma_entry_index};

verus! {

/// The device `other` holds `patch` from `offset` on; at every other position it holds
/// what could be read of `device` there.
pub open spec fn overwritten(
    device: DeviceView,
    world: World,
    offset: int,
    patch: Seq<u8>,
    other: DeviceView,
    other_world: World,
) -> bool {
    forall|position: int|
        0 <= position < device.map.device_size ==> {
            let before = device_byte(device, world, position);
            let after = #[trigger] device_byte(other, other_world, position);
            if offset <= position < offset + patch.len() {
                after == Some(patch[position - offset])
            } else {
                before is Some ==> after == before
            }
        }
}

/// The stored form is the object at the cursor with its part of the input in it.
pub open spec fn is_written_form(
    device: DeviceView,
    world: World,
    cursor: int,
    input: Seq<u8>,
    at: int,
    generation: u64,
    encoded: Seq<u8>,
    object: Seq<u8>,
) -> bool {
    let span = span_at(device, cursor, input.len() - at);
    &&& object.len() == object_size(device)
    &&& span == object_size(device) || object_content(device, world, object_at(device, cursor))
        == Some(object)
    &&& encoded == envelope_bytes(
        (EnvelopeView {
            object_id: object_at(device, cursor),
            generation,
            object_size: device.map.object_size,
            flags: 0,
            payload: patched(object, place_at(device, cursor), input.subrange(at, at + span)),
        }),
    )
}

/// The object at the position is overwritten as a whole by `len` bytes from `offset` on.
pub open spec fn is_covered(device: DeviceView, offset: int, len: int, position: int) -> bool {
    let start = position - place_at(device, position);
    offset <= start && start + object_size(device) <= offset + len
}

/// Some byte from `offset` on, within `len` bytes, cannot be read, and is in an object that is
/// not overwritten as a whole.
#[verifier::opaque]
pub open spec fn unreadable_edge(device: DeviceView, world: World, offset: int, len: int) -> bool {
    exists|position: int|
        offset <= position < offset + len && (#[trigger] device_byte(device, world, position))
            is None && !is_covered(device, offset, len, position)
}

/// Why a write of `input` from `offset` on may be refused when the device has come to be `d`,
/// although no outside work failed.
pub open spec fn write_refusal(
    device: DeviceView,
    world: World,
    offset: int,
    input: Seq<u8>,
    d: DeviceView,
    error: DeviceError,
) -> bool {
    ||| error == DeviceError::Backpressure && d.store.dirty.len() >= device.max_dirty_objects
    ||| error == DeviceError::WriteOutOfBounds && offset + input.len() > device.map.device_size
    ||| unreadable_edge(device, world, offset, input.len() as int)
}

/// What holds of a write that was refused because outside work failed.
pub open spec fn write_broken(
    device: DeviceView,
    world: World,
    offset: int,
    input: Seq<u8>,
    step: StepView,
    after: World,
) -> bool {
    let d = step.device;
    &&& step.outcome == (OutcomeView::Refused { error: DeviceError::Outside })
    &&& same_settings(device, d)
    &&& d.manifest == device.manifest
    &&& rows_apart(d.store.dirty, d.store.cache_dir)
    &&& backed(device, world) ==> backed(d, after)
    &&& own_files_agree(device, world) ==> own_files_agree(d, after)
    &&& exists|cut: int|
        0 <= cut <= input.len() && #[trigger] overwritten(
            device,
            world,
            offset,
            input.take(cut),
            d,
            after,
        )
}

/// What holds of a write of `input` from `offset` on, begun with `device` in `world`,
/// when it has come to `step` in `after`.
pub open spec fn write_state(
    device: DeviceView,
    world: World,
    offset: int,
    input: Seq<u8>,
    step: StepView,
    after: World,
) -> bool {
    let d = step.device;
    &&& same_settings(device, d)
    &&& d.manifest == device.manifest
    &&& d.store.cache_dir == device.store.cache_dir
    &&& rows_apart(d.store.dirty, d.store.cache_dir)
    &&& backed(device, world) ==> backed(d, after)
    &&& own_files_agree(device, world) ==> own_files_agree(d, after)
    &&& match step.outcome {
        OutcomeView::Refused { error } => {
            &&& write_refusal(device, world, offset, input, d, error)
            &&& exists|cut: int|
                0 <= cut <= input.len() && #[trigger] overwritten(
                    device,
                    world,
                    offset,
                    input.take(cut),
                    d,
                    after,
                )
        },
        OutcomeView::Finished { bytes } => {
            &&& bytes.len() == 0
            &&& overwritten(device, world, offset, input, d, after)
        },
        OutcomeView::Wait { op, action } => op matches OpView::Write {
            cursor,
            input: rest,
            at,
            stage,
        } && {
            &&& rest == input
            &&& 0 <= at < input.len()
            &&& cursor == offset + at
            &&& at == 0 || place_at(d, cursor) == 0
            &&& offset + input.len() <= device.map.device_size
            &&& overwritten(device, world, offset, input.take(at), d, after)
            &&& match stage {
                WriteStageView::Reading { stage } => {
                    &&& span_at(d, cursor, input.len() - at) != object_size(d)
                    &&& stage_ok(d, after, object_at(d, cursor), stage, action)
                },
                WriteStageView::Saving { generation, encoded } => {
                    &&& action == (ActionView::WriteFile {
                        path: object_path(d.store.cache_dir, object_at(d, cursor), generation),
                        bytes: encoded,
                    })
                    &&& exists|object: Seq<u8>| #[trigger]
                        is_written_form(
                            d,
                            after,
                            cursor,
                            input,
                            at,
                            generation,
                            encoded,
                            object,
                        )
                },
            }
        },
    }
}

/// Content that stays leaves what was overwritten, overwritten.
proof fn lemma_overwritten_stays(
    device: DeviceView,
    world: World,
    offset: int,
    patch: Seq<u8>,
    d: DeviceView,
    before: World,
    other: DeviceView,
    after: World,
)
    requires
        overwritten(device, world, offset, patch, d, before),
        other.map == d.map,
        crate::device_laws::keeps_content(d, before, other, after),
    ensures
        overwritten(device, world, offset, patch, other, after),
{
    assert forall|position: int| 0 <= position < device.map.device_size implies {
        let was = device_byte(device, world, position);
        let is_now = #[trigger] device_byte(other, after, position);
        if offset <= position < offset + patch.len() {
            is_now == Some(patch[position - offset])
        } else {
            was is Some ==> is_now == was
        }
    } by {
        let mid = device_byte(d, before, position);
        assert(object_content(d, before, object_at(d, position)) is Some ==> object_content(
            other,
            after,
            object_at(d, position),
        ) == object_content(d, before, object_at(d, position)));
    }
}

proof fn lemma_save_written(
    device: DeviceView,
    world: World,
    offset: int,
    input: Seq<u8>,
    d: DeviceView,
    after: World,
    cursor: int,
    at: int,
    object: Seq<u8>,
)
    requires
        same_settings(device, d),
        d.manifest == device.manifest,
        d.store.cache_dir == device.store.cache_dir,
        rows_apart(d.store.dirty, d.store.cache_dir),
        backed(device, world) ==> backed(d, after),
        own_files_agree(device, world) ==> own_files_agree(d, after),
        0 <= at < input.len(),
        cursor == offset + at,
        at == 0 || place_at(d, cursor) == 0,
        offset + input.len() <= device.map.device_size,
        overwritten(device, world, offset, input.take(at), d, after),
        object.len() == object_size(d),
        span_at(d, cursor, input.len() - at) == object_size(d) || object_content(
            d,
            after,
            object_at(d, cursor),
        ) == Some(object),
    ensures
        write_state(
            device,
            world,
            offset,
            input,
            (StepView {
                device: d,
                changes: Seq::empty(),
                outcome: save_written(d, cursor, input, at, object),
            }),
            after,
        ),
{
    match save_written(d, cursor, input, at, object) {
        OutcomeView::Wait { op, action } => match op {
            OpView::Write { stage, .. } => match stage {
                WriteStageView::Saving { generation, encoded } => {
                    assert(is_written_form(
                        d,
                        after,
                        cursor,
                        input,
                        at,
                        generation,
                        encoded,
                        object,
                    ));
                },
                _ => {},
            },
            _ => {},
        },
        _ => {},
    }
}

/// An object that is not overwritten as a whole, and cannot be read, is at an edge.
proof fn lemma_edge(
    device: DeviceView,
    world: World,
    offset: int,
    input: Seq<u8>,
    d: DeviceView,
    before: World,
    at: int,
)
    requires
        object_size(device) > 0,
        0 <= offset,
        d.map == device.map,
        0 <= at < input.len(),
        offset + input.len() <= device.map.device_size,
        at == 0 || place_at(d, offset + at) == 0,
        span_at(d, offset + at, input.len() - at) != object_size(d),
        overwritten(device, world, offset, input.take(at), d, before),
        device_byte(d, before, offset + at) is None,
    ensures
        unreadable_edge(device, world, offset, input.len() as int),
{
    reveal(unreadable_edge);
    let cursor = offset + at;
    vstd::arithmetic::div_mod::lemma_mod_bound(cursor, object_size(d));
    assert(device_byte(d, before, cursor) is None);
    assert(device_byte(device, world, cursor) is None);
    assert(!is_covered(device, offset, input.len() as int, cursor));
}

/// Behind the cursor's part of its object comes the start of another.
pub proof fn lemma_next_object(d: DeviceView, cursor: int, remaining: int)
    requires
        object_size(d) > 0,
        0 <= cursor,
        0 < remaining,
    ensures
        ({
            let span = span_at(d, cursor, remaining);
            span == remaining || place_at(d, cursor + span) == 0
        }),
{
    let size = object_size(d);
    let span = span_at(d, cursor, remaining);
    vstd::arithmetic::div_mod::lemma_fundamental_div_mod(cursor, size);
    if span != remaining {
        let q = cursor / size;
        assert(cursor + span == (q + 1) * size) by (nonlinear_arith)
            requires
                cursor == size * q + cursor % size,
                span == size - cursor % size,
        ;
        vstd::arithmetic::div_mod::lemma_mod_multiples_basic(q + 1, size);
    }
}

proof fn lemma_write_on(
    device: DeviceView,
    world: World,
    offset: int,
    input: Seq<u8>,
    d: DeviceView,
    after: World,
    cursor: int,
    at: int,
)
    requires
        same_settings(device, d),
        d.manifest == device.manifest,
        d.store.cache_dir == device.store.cache_dir,
        rows_apart(d.store.dirty, d.store.cache_dir),
        backed(device, world) ==> backed(d, after),
        own_files_agree(device, world) ==> own_files_agree(d, after),
        object_size(device) > 0,
        0 <= offset,
        0 <= at <= input.len(),
        cursor == offset + at,
        at == 0 || at == input.len() || place_at(d, cursor) == 0,
        offset + input.len() <= device.map.device_size,
        overwritten(device, world, offset, input.take(at), d, after),
    ensures
        write_state(
            device,
            world,
            offset,
            input,
            (StepView {
                device: d,
                changes: Seq::empty(),
                outcome: write_on(d, cursor, input, at),
            }),
            after,
        ),
{
    if at == input.len() {
        assert(input.take(at) =~= input);
    } else {
        let object_id = object_at(d, cursor);
        if span_at(d, cursor, input.len() - at) == object_size(d) {
            lemma_save_written(
                device,
                world,
                offset,
                input,
                d,
                after,
                cursor,
                at,
                crate::device::zeros(object_size(d)),
            );
        } else {
            lemma_object_started(d, after, object_id);
            match object_started(d, object_id) {
                ObjectOutcomeView::Read { bytes } => {
                    lemma_save_written(
                        device,
                        world,
                        offset,
                        input,
                        d,
                        after,
                        cursor,
                        at,
                        bytes,
                    );
                },
                ObjectOutcomeView::Refused { .. } => {
                    assert(device_byte(d, after, cursor) is None);
                    lemma_edge(device, world, offset, input, d, after, at);
                },
                _ => {},
            }
        }
    }
}

/// What the index records of a written object: it is dirty, in its own cache file, and
/// no other object is touched.
proof fn lemma_written_changes(
    d: DeviceView,
    object_id: u64,
    generation: u64,
    encoded: Seq<u8>,
    place: int,
    span: int,
    now: Seq<char>,
)
    ensures
        ({
            let changes = written_changes(d, object_id, generation, encoded, place, span, now);
            let store = changed_by(d.store, changes);
            &&& store.cache_dir == d.store.cache_dir
            &&& store.dirty == put_dirty(
                d.store.dirty,
                (DirtyView {
                    object_id,
                    generation,
                    cache_path: object_path(d.store.cache_dir, object_id, generation),
                    sha256: sha256_text(encoded),
                }),
            )
        }),
{
    let changes = written_changes(d, object_id, generation, encoded, place, span, now);
    let (c0, c1, c2) = (changes[0], changes[1], changes[2]);
    lemma_changed_by_one(d.store, c0);
    lemma_changed_by_push(d.store, seq![c0], c1);
    lemma_changed_by_push(d.store, seq![c0].push(c1), c2);
    assert(changes =~= seq![c0].push(c1).push(c2));
}

/// Marking an object dirty in the cache file of its own generation keeps dirty objects out of
/// the files of others.
pub proof fn lemma_marked_rows_apart(store: StoreView, other: StoreView, row: DirtyView)
    requires
        rows_apart(store.dirty, store.cache_dir),
        other.cache_dir == store.cache_dir,
        other.dirty == put_dirty(store.dirty, row),
        row.cache_path == object_path(store.cache_dir, row.object_id, row.generation),
    ensures
        rows_apart(other.dirty, other.cache_dir),
{
    reveal(rows_apart);
    assert forall|id: u64, other_id: u64, generation: u64| #[trigger]
        row_apart(other.dirty, other.cache_dir, id, other_id, generation) by {
        assert(row_apart(store.dirty, store.cache_dir, id, other_id, generation));
        law_dirty_lookup(store.dirty, row, id);
        if row.cache_path == object_path(store.cache_dir, other_id, generation) {
            law_object_paths_are_distinct(
                store.cache_dir,
                row.object_id,
                row.generation,
                other_id,
                generation,
            );
        }
    }
}

/// After a written object was saved, the device holds it, and all other objects as
/// before.
proof fn lemma_saved_content(
    d: DeviceView,
    before: World,
    object_id: u64,
    generation: u64,
    payload: Seq<u8>,
    place: int,
    span: int,
    now: Seq<char>,
)
    requires
        rows_apart(d.store.dirty, d.store.cache_dir),
        payload.len() == object_size(d),
    ensures
        ({
            let encoded = envelope_bytes(
                (EnvelopeView {
                    object_id,
                    generation,
                    object_size: d.map.object_size,
                    flags: 0,
                    payload,
                }),
            );
            let path = object_path(d.store.cache_dir, object_id, generation);
            let changes = written_changes(d, object_id, generation, encoded, place, span, now);
            let other = DeviceView { store: changed_by(d.store, changes), ..d };
            let after = World { files: before.files.insert(path, encoded), ..before };
            &&& rows_apart(other.store.dirty, other.store.cache_dir)
            &&& backed(d, before) ==> backed(other, after)
            &&& own_files_agree(d, before) ==> own_files_agree(other, after)
            &&& object_content(other, after, object_id) == Some(payload)
            &&& forall|id: u64|
                id != object_id ==> #[trigger] object_content(other, after, id) == object_content(
                    d,
                    before,
                    id,
                )
        }),
{
    let envelope = EnvelopeView {
        object_id,
        generation,
        object_size: d.map.object_size,
        flags: 0,
        payload,
    };
    let encoded = envelope_bytes(envelope);
    let path = object_path(d.store.cache_dir, object_id, generation);
    let changes = written_changes(d, object_id, generation, encoded, place, span, now);
    let other = DeviceView { store: changed_by(d.store, changes), ..d };
    let after = World { files: before.files.insert(path, encoded), ..before };
    let row = DirtyView { object_id, generation, cache_path: path, sha256: sha256_text(encoded) };
    lemma_written_changes(d, object_id, generation, encoded, place, span, now);
    law_envelope_round_trip(envelope);
    law_dirty_lookup(d.store.dirty, row, object_id);
    assert(padded(payload, object_size(d)) =~= payload);
    lemma_marked_rows_apart(d.store, other.store, row);
    assert forall|id: u64| id != object_id implies #[trigger] object_content(other, after, id)
        == object_content(d, before, id) by {
        law_dirty_lookup(d.store.dirty, row, id);
        match dirty_at(d.store.dirty, id) {
            Some(r) => {
                reveal(rows_apart);
                assert(row_apart(d.store.dirty, d.store.cache_dir, id, object_id, generation));
                assert(r.cache_path != path);
            },
            None => match entry_index(d.manifest.objects, id) {
                None => {},
                Some(i) => {
                    lemma_entry_index(d.manifest.objects, id);
                    match stored_place(d.manifest.objects[i]) {
                        Ok(stored) => {
                            if path_of(d, stored) == path {
                                law_object_paths_are_distinct(
                                    d.store.cache_dir,
                                    stored.object_id,
                                    stored.generation,
                                    object_id,
                                    generation,
                                );
                            }
                        },
                        Err(_) => {},
                    }
                },
            },
        }
    }
    reveal(own_files_agree);
    if own_files_agree(d, before) {
        assert forall|id: u64| #[trigger] own_file_agrees(other, after, id) by {
            law_dirty_lookup(d.store.dirty, row, id);
            assert(own_file_agrees(d, before, id));
            if id != object_id && dirty_at(d.store.dirty, id) is Some {
                assert(object_content(other, after, id) == object_content(d, before, id));
                let kept = dirty_at(d.store.dirty, id)->0;
                if object_path(d.store.cache_dir, id, kept.generation) == path {
                    law_object_paths_are_distinct(
                        d.store.cache_dir,
                        id,
                        kept.generation,
                        object_id,
                        generation,
                    );
                }
            }
        }
    }
    if backed(d, before) {
        assert forall|id: u64|
            dirty_at(other.store.dirty, id) is None && (#[trigger] object_content(
                other,
                after,
                id,
            )) is Some implies object_content(other, without_files(after), id) == object_content(
            other,
            after,
            id,
        ) by {
            law_dirty_lookup(d.store.dirty, row, id);
            assert(id != object_id);
            assert(object_content(d, before, id) is Some);
            assert(without_files(after) == without_files(before));
        }
    }
}

/// A position lies in the cursor's part of its object, or in another part or object.
proof fn lemma_position_in_span(d: DeviceView, cursor: int, span: int, position: int)
    requires
        object_size(d) > 0,
        0 <= cursor <= u64::MAX,
        0 <= position <= u64::MAX,
        0 < span,
        place_at(d, cursor) + span <= object_size(d),
    ensures
        0 <= place_at(d, position) < object_size(d),
        cursor <= position < cursor + span <==> object_at(d, position) == object_at(d, cursor)
            && place_at(d, cursor) <= place_at(d, position) < place_at(d, cursor) + span,
        object_at(d, position) == object_at(d, cursor) ==> place_at(d, position) - place_at(
            d,
            cursor,
        ) == position - cursor,
{
    let size = object_size(d);
    vstd::arithmetic::div_mod::lemma_fundamental_div_mod(cursor, size);
    vstd::arithmetic::div_mod::lemma_fundamental_div_mod(position, size);
    let q = cursor / size;
    let p = position / size;
    assert(0 <= q <= cursor) by (nonlinear_arith)
        requires
            cursor == size * q + cursor % size,
            0 <= cursor % size < size,
            size >= 1,
            cursor >= 0,
    ;
    assert(0 <= p <= position) by (nonlinear_arith)
        requires
            position == size * p + position % size,
            0 <= position % size < size,
            size >= 1,
            position >= 0,
    ;
    if cursor <= position < cursor + span {
        lemma_positions(d, cursor, position - cursor);
    }
}

/// Where the object at the cursor has its part of the input in it and all others are
/// the same, one part more is overwritten.
proof fn lemma_part_overwritten(
    device: DeviceView,
    world: World,
    offset: int,
    input: Seq<u8>,
    d: DeviceView,
    before: World,
    other: DeviceView,
    after: World,
    at: int,
    object: Seq<u8>,
)
    requires
        object_size(device) > 0,
        0 <= offset,
        d.map == device.map,
        other.map == device.map,
        0 <= at < input.len(),
        offset + input.len() <= device.map.device_size,
        overwritten(device, world, offset, input.take(at), d, before),
        object.len() == object_size(d),
        ({
            let cursor = offset + at;
            let span = span_at(d, cursor, input.len() - at);
            let object_id = object_at(d, cursor);
            &&& span == object_size(d) || object_content(d, before, object_id) == Some(object)
            &&& object_content(other, after, object_id) == Some(
                patched(object, place_at(d, cursor), input.subrange(at, at + span)),
            )
            &&& forall|id: u64|
                id != object_id ==> #[trigger] object_content(other, after, id) == object_content(
                    d,
                    before,
                    id,
                )
        }),
    ensures
        overwritten(
            device,
            world,
            offset,
            input.take(at + span_at(d, offset + at, input.len() - at)),
            other,
            after,
        ),
{
    let cursor = offset + at;
    let object_id = object_at(d, cursor);
    let place = place_at(d, cursor);
    let span = span_at(d, cursor, input.len() - at);
    lemma_span(d, cursor, input.len() - at);
    let piece = input.subrange(at, at + span);
    let payload = patched(object, place, piece);
    let patch = input.take(at + span);
    assert forall|position: int| 0 <= position < device.map.device_size implies {
        let was = device_byte(device, world, position);
        let is_now = #[trigger] device_byte(other, after, position);
        if offset <= position < offset + patch.len() {
            is_now == Some(patch[position - offset])
        } else {
            was is Some ==> is_now == was
        }
    } by {
        let mid = device_byte(d, before, position);
        lemma_position_in_span(d, cursor, span, position);
        if object_at(d, position) == object_id {
            let p = place_at(d, position);
            assert(device_byte(other, after, position) == Some(payload[p]));
            if place <= p < place + span {
                assert(payload[p] == piece[p - place]);
                assert(position - offset == at + (p - place));
            } else {
                assert(payload[p] == object[p]);
                assert(span != object_size(d));
                assert(mid == Some(object[p]));
                if offset <= position < offset + at {
                    assert(input.take(at)[position - offset] == patch[position - offset]);
                }
            }
        } else {
            assert(device_byte(other, after, position) == mid);
            if offset <= position < offset + at {
                assert(input.take(at)[position - offset] == patch[position - offset]);
            }
        }
    }
}

proof fn lemma_saving_overwrites(
    device: DeviceView,
    world: World,
    offset: int,
    input: Seq<u8>,
    d: DeviceView,
    before: World,
    cursor: int,
    at: int,
    generation: u64,
    encoded: Seq<u8>,
    now: Seq<char>,
)
    requires
        object_size(device) > 0,
        0 <= offset,
        d.map == device.map,
        rows_apart(d.store.dirty, d.store.cache_dir),
        0 <= at < input.len(),
        cursor == offset + at,
        offset + input.len() <= device.map.device_size,
        overwritten(device, world, offset, input.take(at), d, before),
        exists|object: Seq<u8>| #[trigger]
            is_written_form(d, before, cursor, input, at, generation, encoded, object),
    ensures
        ({
            let object_id = object_at(d, cursor);
            let span = span_at(d, cursor, input.len() - at);
            let changes = written_changes(
                d,
                object_id,
                generation,
                encoded,
                place_at(d, cursor),
                span,
                now,
            );
            let other = DeviceView { store: changed_by(d.store, changes), ..d };
            let path = object_path(d.store.cache_dir, object_id, generation);
            let after = World { files: before.files.insert(path, encoded), ..before };
            &&& rows_apart(other.store.dirty, other.store.cache_dir)
            &&& backed(d, before) ==> backed(other, after)
            &&& own_files_agree(d, before) ==> own_files_agree(other, after)
            &&& other.store.cache_dir == d.store.cache_dir
            &&& overwritten(device, world, offset, input.take(at + span), other, after)
        }),
{
    let object = choose|object: Seq<u8>| #[trigger]
        is_written_form(d, before, cursor, input, at, generation, encoded, object);
    let object_id = object_at(d, cursor);
    let place = place_at(d, cursor);
    let span = span_at(d, cursor, input.len() - at);
    lemma_span(d, cursor, input.len() - at);
    let piece = input.subrange(at, at + span);
    let payload = patched(object, place, piece);
    let changes = written_changes(d, object_id, generation, encoded, place, span, now);
    let other = DeviceView { store: changed_by(d.store, changes), ..d };
    let path = object_path(d.store.cache_dir, object_id, generation);
    let after = World { files: before.files.insert(path, encoded), ..before };
    assert(payload.len() == object_size(d));
    lemma_saved_content(d, before, object_id, generation, payload, place, span, now);
    lemma_written_changes(d, object_id, generation, encoded, place, span, now);
    lemma_part_overwritten(
        device,
        world,
        offset,
        input,
        d,
        before,
        other,
        after,
        at,
        object,
    );
}

proof fn lemma_write_failed(
    device: DeviceView,
    world: World,
    offset: int,
    input: Seq<u8>,
    step: StepView,
    before: World,
    reply: ReplyView,
    now: Seq<char>,
    after: World,
)
    requires
        object_size(device) > 0,
        0 <= offset,
        write_state(device, world, offset, input, step, before),
        step.outcome matches OutcomeView::Wait { action, .. } && answered(
            before,
            action,
            reply,
            after,
        ),
        reply is Failed,
    ensures
        write_broken(
            device,
            world,
            offset,
            input,
            resumed(step.device, step.outcome->Wait_op, reply, now),
            after,
        ),
{
    let d = step.device;
    match step.outcome->Wait_op {
        OpView::Write { at, .. } => {
            lemma_grown_keeps_content(d, before, after);
            lemma_overwritten_stays(
                device,
                world,
                offset,
                input.take(at),
                d,
                before,
                d,
                after,
            );
            let next = resumed(step.device, step.outcome->Wait_op, reply, now);
            assert(overwritten(device, world, offset, input.take(at), next.device, after));
        },
        _ => {},
    }
}

proof fn lemma_write_reading_resumed(
    device: DeviceView,
    world: World,
    offset: int,
    input: Seq<u8>,
    step: StepView,
    before: World,
    reply: ReplyView,
    now: Seq<char>,
    after: World,
)
    requires
        object_size(device) > 0,
        0 <= offset,
        write_state(device, world, offset, input, step, before),
        step.outcome matches OutcomeView::Wait { action, .. } && answered(
            before,
            action,
            reply,
            after,
        ),
        !(reply is Failed),
        step.outcome->Wait_op matches OpView::Write { stage, .. } && stage is Reading,
    ensures
        write_state(
            device,
            world,
            offset,
            input,
            resumed(step.device, step.outcome->Wait_op, reply, now),
            after,
        ),
{
    let d = step.device;
    let action = step.outcome->Wait_action;
    match step.outcome->Wait_op {
        OpView::Write { cursor, at, stage: WriteStageView::Reading { stage }, .. } => {
            let object_id = object_at(d, cursor);
            lemma_object_resumed(
                d,
                before,
                object_id,
                stage,
                action,
                reply,
                now,
                after,
            );
            let inner = object_resumed(d, stage, reply, now);
            assert(crate::device_laws::keeps_content(d, before, inner.device, after));
            lemma_overwritten_stays(
                device,
                world,
                offset,
                input.take(at),
                d,
                before,
                inner.device,
                after,
            );
            match inner.outcome {
                ObjectOutcomeView::Read { bytes } => {
                    assert(object_content(inner.device, after, object_id)
                        == object_content(d, before, object_id));
                    lemma_save_written(
                        device,
                        world,
                        offset,
                        input,
                        inner.device,
                        after,
                        cursor,
                        at,
                        bytes,
                    );
                },
                ObjectOutcomeView::Refused { .. } => {
                    assert(device_byte(d, before, cursor) is None);
                    lemma_edge(device, world, offset, input, d, before, at);
                },
                _ => {},
            }
        },
        _ => {},
    }
}

proof fn lemma_write_saving_resumed(
    device: DeviceView,
    world: World,
    offset: int,
    input: Seq<u8>,
    step: StepView,
    before: World,
    reply: ReplyView,
    now: Seq<char>,
    after: World,
)
    requires
        object_size(device) > 0,
        0 <= offset,
        write_state(device, world, offset, input, step, before),
        step.outcome matches OutcomeView::Wait { action, .. } && answered(
            before,
            action,
            reply,
            after,
        ),
        reply is Done,
        step.outcome->Wait_op matches OpView::Write { stage, .. } && stage is Saving,
    ensures
        write_state(
            device,
            world,
            offset,
            input,
            resumed(step.device, step.outcome->Wait_op, reply, now),
            after,
        ),
{
    let d = step.device;
    match step.outcome->Wait_op {
        OpView::Write {
            cursor,
            at,
            stage: WriteStageView::Saving { generation, encoded },
            ..
        } => {
            let span = span_at(d, cursor, input.len() - at);
            let changes = written_changes(
                d,
                object_at(d, cursor),
                generation,
                encoded,
                place_at(d, cursor),
                span,
                now,
            );
            let other = DeviceView { store: changed_by(d.store, changes), ..d };
            lemma_span(d, cursor, input.len() - at);
            lemma_next_object(d, cursor, input.len() - at);
            lemma_saving_overwrites(
                device,
                world,
                offset,
                input,
                d,
                before,
                cursor,
                at,
                generation,
                encoded,
                now,
            );
            lemma_write_on(
                device,
                world,
                offset,
                input,
                other,
                after,
                cursor + span,
                at + span,
            );
        },
        _ => {},
    }
}

proof fn lemma_write_resumed(
    device: DeviceView,
    world: World,
    offset: int,
    input: Seq<u8>,
    step: StepView,
    before: World,
    reply: ReplyView,
    now: Seq<char>,
    after: World,
)
    requires
        object_size(device) > 0,
        0 <= offset,
        write_state(device, world, offset, input, step, before),
        step.outcome matches OutcomeView::Wait { action, .. } && answered(
            before,
            action,
            reply,
            after,
        ),
    ensures
        ({
            let next = resumed(step.device, step.outcome->Wait_op, reply, now);
            write_state(device, world, offset, input, next, after) || (reply is Failed
                && write_broken(device, world, offset, input, next, after))
        }),
{
    if reply is Failed {
        lemma_write_failed(device, world, offset, input, step, before, reply, now, after);
    } else {
        match step.outcome->Wait_op {
            OpView::Write { stage, .. } => match stage {
                WriteStageView::Reading { .. } => {
                    lemma_write_reading_resumed(
                        device,
                        world,
                        offset,
                        input,
                        step,
                        before,
                        reply,
                        now,
                        after,
                    );
                },
                WriteStageView::Saving { .. } => {
                    lemma_write_saving_resumed(
                        device,
                        world,
                        offset,
                        input,
                        step,
                        before,
                        reply,
                        now,
                        after,
                    );
                },
            },
            _ => {},
        }
    }
}

proof fn lemma_write_leads(
    device: DeviceView,
    world: World,
    offset: int,
    input: Seq<u8>,
    step: StepView,
    before: World,
    events: Seq<Event>,
    last: StepView,
    after: World,
)
    requires
        object_size(device) > 0,
        0 <= offset,
        write_state(device, world, offset, input, step, before),
        leads_to(step, before, events, last, after),
    ensures
        write_state(device, world, offset, input, last, after) || (events.len() > 0
            && events.last().reply is Failed && write_broken(
            device,
            world,
            offset,
            input,
            last,
            after,
        )),
    decreases events.len(),
{
    if events.len() > 0 {
        let event = events[0];
        lemma_write_resumed(
            device,
            world,
            offset,
            input,
            step,
            before,
            event.reply,
            event.now,
            event.world,
        );
        let next = resumed(step.device, step.outcome->Wait_op, event.reply, event.now);
        let rest = events.skip(1);
        if rest.len() > 0 {
            assert(rest.last() == events.last());
        }
        if next.outcome is Refused {
            reveal_with_fuel(leads_to, 2);
            assert(rest.len() == 0);
        } else {
            lemma_write_leads(
                device,
                world,
                offset,
                input,
                next,
                event.world,
                rest,
                last,
                after,
            );
        }
    }
}

/// A write that finishes puts exactly its input down, and leaves every other byte as it
/// could be read before. A write that is refused has put down a first part of its input
/// and changed nothing else; it is refused only where it reaches beyond the device, the
/// outside work that it asked for last failed, a byte of an object that it overwrites in part
/// cannot be read, or, for too much being dirty, where as many objects are dirty as the
/// device's limit allows. Nothing of it is committed: the manifest stays as it is.
pub proof fn law_write_changes_its_bytes_only(
    device: DeviceView,
    world: World,
    offset: int,
    input: Seq<u8>,
    events: Seq<Event>,
    last: StepView,
    after: World,
)
    requires
        object_size(device) > 0,
        0 <= offset,
        rows_apart(device.store.dirty, device.store.cache_dir),
        leads_to(write_started(device, offset, input), world, events, last, after),
    ensures
        last.outcome is Finished ==> overwritten(
            device,
            world,
            offset,
            input,
            last.device,
            after,
        ),
        last.outcome matches OutcomeView::Refused { error } ==> outside_failed(events, error)
            || write_refusal(
            device,
            world,
            offset,
            input,
            last.device,
            error,
        ),
        same_settings(device, last.device),
        last.outcome is Refused ==> exists|cut: int|
            0 <= cut <= input.len() && #[trigger] overwritten(
                device,
                world,
                offset,
                input.take(cut),
                last.device,
                after,
            ),
        last.device.manifest == device.manifest,
        last.device.map == device.map,
        rows_apart(last.device.store.dirty, last.device.store.cache_dir),
        backed(device, world) ==> backed(last.device, after),
        own_files_agree(device, world) ==> own_files_agree(last.device, after),
{
    let first = write_started(device, offset, input);
    assert(overwritten(device, world, offset, input.take(0), device, world));
    if offset + input.len() <= device.map.device_size {
        lemma_write_on(device, world, offset, input, device, world, offset, 0);
    }
    lemma_write_leads(device, world, offset, input, first, world, events, last, after);
}

/// What was written is read back: a read of the same place that finishes after a write
/// that finished hands back the input. It is refused only where outside work failed.
pub proof fn law_read_after_write(
    device: DeviceView,
    world: World,
    offset: int,
    input: Seq<u8>,
    write_events: Seq<Event>,
    written: StepView,
    between: World,
    read_events: Seq<Event>,
    read: StepView,
    after: World,
)
    requires
        object_size(device) > 0,
        0 <= offset,
        rows_apart(device.store.dirty, device.store.cache_dir),
        leads_to(write_started(device, offset, input), world, write_events, written, between),
        written.outcome is Finished,
        leads_to(
            crate::device::read_started(written.device, offset, input.len() as int),
            between,
            read_events,
            read,
            after,
        ),
    ensures
        read.outcome matches OutcomeView::Finished { bytes } ==> bytes == input,
        read.outcome matches OutcomeView::Refused { error } ==> outside_failed(
            read_events,
            error,
        ),
{
    law_write_changes_its_bytes_only(
        device,
        world,
        offset,
        input,
        write_events,
        written,
        between,
    );
    crate::device_laws::law_read_returns_content(
        written.device,
        between,
        offset,
        input.len() as int,
        read_events,
        read,
        after,
    );
    match read.outcome {
        OutcomeView::Finished { bytes } => {
            assert forall|p: int| 0 <= p < input.len() implies bytes[p] == input[p] by {
                assert(device_byte(written.device, between, offset + p) == Some(bytes[p]));
            }
            assert(bytes =~= input);
        },
        _ => {},
    }
}

} // verus!
