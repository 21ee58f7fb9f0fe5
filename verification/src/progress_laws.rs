//! What requests ask for on their way, in which order, and that they come to an end.
use vstd::prelude::*;

use crate::cache::{dirty_at, dirty_in_order, DirtyView};
use crate::device::{
    flush_started, object_at, object_resumed, object_size, object_started, place_at, probe_on,
    read_on, read_started, resumed, span_at, store_on, write_started, ActionView, DeviceError,
    DeviceView, FlushStageView, ObjectOutcomeView, ObjectStageView, OpView, OutcomeView,
    ReadStageView, ReplyView, StepView, StoredView, WriteStageView,
};
use crate::device_laws::{
    answered, device_byte, law_read_returns_content, leads_to, lemma_span, object_content,
    outside_failed, rows_apart, same_settings, Event, World,
};
use crate::flush_laws::{lemma_dirty_at, lemma_same_numbers, same_numbers};
use crate::index::first_repeat;
use crate::manifest::{entry_index, lemma_entry_index, ManifestObjectView};
use crate::write_laws::{law_write_changes_its_bytes_only, overwritten, unreadable_edge};

verus! {

/// What a request asked for and what it was told, in order.
pub open spec fn exchanges(step: StepView, events: Seq<Event>) -> Seq<(ActionView, ReplyView)>
    decreases events.len(),
{
    if events.len() == 0 {
        Seq::empty()
    } else {
        match step.outcome {
            OutcomeView::Wait { op, action } => seq![(action, events[0].reply)] + exchanges(
                resumed(step.device, op, events[0].reply, events[0].now),
                events.skip(1),
            ),
            _ => Seq::empty(),
        }
    }
}

/// The step to which the replies bring a request.
pub open spec fn step_after(step: StepView, events: Seq<Event>) -> StepView
    decreases events.len(),
{
    if events.len() == 0 {
        step
    } else {
        match step.outcome {
            OutcomeView::Wait { op, .. } => step_after(
                resumed(step.device, op, events[0].reply, events[0].now),
                events.skip(1),
            ),
            _ => step,
        }
    }
}

/// The exchanges of a flush from its `at`-th dirty object on: each is read from its cache
/// file and uploaded as it was read, then the manifest is committed, if there is a
/// committer, then it is encoded.
pub open spec fn is_flush_run(
    rows: Seq<DirtyView>,
    at: int,
    committing: bool,
    files: Map<Seq<char>, Seq<u8>>,
    run: Seq<(ActionView, ReplyView)>,
) -> bool
    decreases rows.len() - at,
{
    if at < rows.len() {
        let row = rows[at];
        &&& run.len() >= 2
        &&& files.dom().contains(row.cache_path)
        &&& run[0] == (
            ActionView::ReadFile { path: row.cache_path },
            ReplyView::File { content: files[row.cache_path] },
        )
        &&& run[1].0 == (ActionView::Send {
            object_id: row.object_id,
            generation: row.generation,
            payload: files[row.cache_path],
            sha256: row.sha256,
        })
        &&& run[1].1 is Sent
        &&& is_flush_run(rows, at + 1, committing, files, run.skip(2))
    } else if committing {
        &&& run.len() == 2
        &&& run[0] == (ActionView::Commit, ReplyView::Done)
        &&& run[1].0 == ActionView::EncodeManifest
        &&& run[1].1 is Encoded
    } else {
        &&& run.len() == 1
        &&& run[0].0 == ActionView::EncodeManifest
        &&& run[0].1 is Encoded
    }
}

/// A flush on its way waits for what its stage asks for.
spec fn flush_shape(step: StepView, world: World, rows: Seq<DirtyView>, at: int) -> bool {
    step.outcome matches OutcomeView::Wait { op, action } && op matches OpView::Flush {
        rows: queue,
        at: here,
        stage,
    } && {
        &&& queue == rows
        &&& here == at
        &&& 0 <= at <= rows.len()
        &&& match stage {
            FlushStageView::Reading => {
                &&& at < rows.len()
                &&& action == (ActionView::ReadFile { path: rows[at].cache_path })
            },
            FlushStageView::Sending { sha256 } => {
                &&& at < rows.len()
                &&& world.files.dom().contains(rows[at].cache_path)
                &&& action == (ActionView::Send {
                    object_id: rows[at].object_id,
                    generation: rows[at].generation,
                    payload: world.files[rows[at].cache_path],
                    sha256: rows[at].sha256,
                })
            },
            FlushStageView::Committing => {
                &&& at == rows.len()
                &&& step.device.has_committer
                &&& action == ActionView::Commit
            },
            FlushStageView::Encoding => {
                &&& at == rows.len()
                &&& action == ActionView::EncodeManifest
            },
        }
    }
}

/// The exchanges that are still to come where a flush stands.
spec fn flush_rest(
    stage: FlushStageView,
    rows: Seq<DirtyView>,
    at: int,
    committing: bool,
    files: Map<Seq<char>, Seq<u8>>,
    run: Seq<(ActionView, ReplyView)>,
) -> bool {
    match stage {
        FlushStageView::Reading => is_flush_run(rows, at, committing, files, run),
        FlushStageView::Sending { .. } => {
            &&& run.len() >= 1
            &&& run[0].0 == (ActionView::Send {
                object_id: rows[at].object_id,
                generation: rows[at].generation,
                payload: files[rows[at].cache_path],
                sha256: rows[at].sha256,
            })
            &&& run[0].1 is Sent
            &&& is_flush_run(rows, at + 1, committing, files, run.skip(1))
        },
        FlushStageView::Committing => {
            &&& run.len() == 2
            &&& run[0] == (ActionView::Commit, ReplyView::Done)
            &&& run[1].0 == ActionView::EncodeManifest
            &&& run[1].1 is Encoded
        },
        FlushStageView::Encoding => {
            &&& run.len() == 1
            &&& run[0].0 == ActionView::EncodeManifest
            &&& run[0].1 is Encoded
        },
    }
}

proof fn lemma_flush_run(
    step: StepView,
    world: World,
    rows: Seq<DirtyView>,
    at: int,
    events: Seq<Event>,
    last: StepView,
    after: World,
)
    requires
        flush_shape(step, world, rows, at),
        leads_to(step, world, events, last, after),
        last.outcome is Finished,
    ensures
        step.outcome->Wait_op matches OpView::Flush { stage, .. } && {
            &&& flush_rest(
                stage,
                rows,
                at,
                step.device.has_committer,
                world.files,
                exchanges(step, events),
            ) || (stage is Encoding && step.device.has_committer)
            &&& stage is Encoding ==> exchanges(step, events).len() == 1 && exchanges(
                step,
                events,
            )[0].0 == ActionView::EncodeManifest && exchanges(step, events)[0].1 is Encoded
        },
    decreases events.len(),
{
    reveal_with_fuel(leads_to, 2);
    let event = events[0];
    let rest = events.skip(1);
    let op = step.outcome->Wait_op;
    let action = step.outcome->Wait_action;
    let next = resumed(step.device, op, event.reply, event.now);
    let run = exchanges(step, events);
    let later = exchanges(next, rest);
    assert(run == seq![(action, event.reply)] + later);
    match op {
        OpView::Flush { stage, .. } => match stage {
            FlushStageView::Encoding => {
                assert(next.outcome is Finished);
                assert(rest.len() == 0);
            },
            _ => {
                let ahead = if stage is Sending { at + 1 } else { at };
                assert(flush_shape(next, event.world, rows, ahead));
                lemma_flush_run(next, event.world, rows, ahead, rest, last, after);
                assert(event.world.files == world.files);
                assert(run.skip(1) =~= later);
                if stage is Reading {
                    assert(run.skip(2) =~= later.skip(1));
                }
                if stage is Sending {
                    assert(next.device.has_committer == step.device.has_committer);
                }
            },
        },
        _ => {},
    }
}

/// A flush that finishes with something dirty at its start has gone this way: it read every
/// dirty object from its cache file, in order, and uploaded it as it was read, under its own
/// number, generation and digest; behind the last upload it had the manifest committed, if
/// there is a committer, whatever the manifest's generation; and then the manifest encoded,
/// before the index forgot what was dirty.
pub proof fn law_flush_uploads_then_commits(
    device: DeviceView,
    world: World,
    events: Seq<Event>,
    last: StepView,
    after: World,
)
    requires
        device.store.dirty.len() > 0,
        leads_to(flush_started(device), world, events, last, after),
        last.outcome is Finished,
    ensures
        is_flush_run(
            device.store.dirty,
            0,
            device.has_committer,
            world.files,
            exchanges(flush_started(device), events),
        ),
{
    let first = flush_started(device);
    assert(flush_shape(first, world, device.store.dirty, 0));
    lemma_flush_run(first, world, device.store.dirty, 0, events, last, after);
}

/// A trace goes on from where its first part has brought it.
proof fn lemma_cut(
    step: StepView,
    world: World,
    events: Seq<Event>,
    last: StepView,
    after: World,
    cut: int,
) -> (middle: World)
    requires
        leads_to(step, world, events, last, after),
        0 <= cut <= events.len(),
    ensures
        leads_to(step_after(step, events.take(cut)), middle, events.skip(cut), last, after),
    decreases cut,
{
    if cut == 0 {
        assert(events.take(0) =~= Seq::<Event>::empty());
        assert(events.skip(0) =~= events);
        world
    } else {
        let event = events[0];
        let rest = events.skip(1);
        let next = resumed(step.device, step.outcome->Wait_op, event.reply, event.now);
        let middle = lemma_cut(next, event.world, rest, last, after, cut - 1);
        assert(events.take(cut).skip(1) =~= rest.take(cut - 1));
        assert(events.take(cut)[0] == event);
        assert(rest.skip(cut - 1) =~= events.skip(cut));
        middle
    }
}

/// From the commit on the manifest stays.
proof fn lemma_manifest_stays(
    step: StepView,
    world: World,
    events: Seq<Event>,
    last: StepView,
    after: World,
)
    requires
        step.outcome matches OutcomeView::Wait { op, .. } && op matches OpView::Flush {
            stage,
            ..
        } && (stage is Committing || stage is Encoding),
        leads_to(step, world, events, last, after),
    ensures
        last.device.manifest == step.device.manifest,
    decreases events.len(),
{
    if events.len() > 0 {
        reveal_with_fuel(leads_to, 2);
        let event = events[0];
        let next = resumed(step.device, step.outcome->Wait_op, event.reply, event.now);
        if next.outcome is Wait {
            lemma_manifest_stays(next, event.world, events.skip(1), last, after);
        }
    }
}

proof fn lemma_flush_stays_a_flush(step: StepView, events: Seq<Event>)
    requires
        step.outcome matches OutcomeView::Wait { op, action } ==> op matches OpView::Flush {
            stage,
            ..
        } && (action == ActionView::Commit ==> stage is Committing),
    ensures
        step_after(step, events).outcome matches OutcomeView::Wait { op, action } ==> op
            matches OpView::Flush { stage, .. } && (action == ActionView::Commit
            ==> stage is Committing),
    decreases events.len(),
{
    if events.len() > 0 {
        match step.outcome {
            OutcomeView::Wait { op, .. } => {
                lemma_flush_stays_a_flush(
                    resumed(step.device, op, events[0].reply, events[0].now),
                    events.skip(1),
                );
            },
            _ => {},
        }
    }
}

/// What a flush has committed is what it leaves: wherever on its way the manifest is
/// committed, it is the manifest that the device has at the end.
pub proof fn law_flush_commits_what_it_leaves(
    device: DeviceView,
    world: World,
    events: Seq<Event>,
    last: StepView,
    after: World,
    cut: int,
)
    requires
        leads_to(flush_started(device), world, events, last, after),
        0 <= cut <= events.len(),
        step_after(flush_started(device), events.take(cut)).outcome matches OutcomeView::Wait {
            action,
            ..
        } && action == ActionView::Commit,
    ensures
        last.device.manifest == step_after(
            flush_started(device),
            events.take(cut),
        ).device.manifest,
{
    let first = flush_started(device);
    lemma_flush_stays_a_flush(first, events.take(cut));
    let middle = lemma_cut(first, world, events, last, after, cut);
    lemma_manifest_stays(
        step_after(first, events.take(cut)),
        middle,
        events.skip(cut),
        last,
        after,
    );
}

/// Two entries of the manifest have the number.
pub open spec fn is_listed_twice(objects: Seq<ManifestObjectView>, object_id: u64) -> bool {
    exists|i: int, j: int|
        0 <= i < j < objects.len() && (#[trigger] objects[i]).object_id == object_id && (
        #[trigger] objects[j]).object_id == object_id
}

proof fn lemma_first_repeat(objects: Seq<ManifestObjectView>)
    ensures
        first_repeat(objects) matches Some(id) ==> is_listed_twice(objects, id),
    decreases objects.len(),
{
    if objects.len() > 0 {
        let head = objects.drop_last();
        lemma_first_repeat(head);
        match first_repeat(head) {
            Some(id) => {
                let (i, j) = choose|i: int, j: int|
                    0 <= i < j < head.len() && (#[trigger] head[i]).object_id == id && (
                    #[trigger] head[j]).object_id == id;
                assert(objects[i] == head[i] && objects[j] == head[j]);
            },
            None => {
                if first_repeat(objects) is Some {
                    let k = choose|k: int|
                        0 <= k < objects.len() - 1 && (#[trigger] objects[k]).object_id
                            == objects.last().object_id;
                    assert(objects[objects.len() - 1] == objects.last());
                    assert(objects[k].object_id == objects[objects.len() - 1].object_id);
                }
            },
        }
    }
}

/// Why a flush may be refused although no outside work failed: a dirty object cannot be read
/// or is not listed in the manifest, or the manifest lists an object twice.
pub open spec fn flush_refusal(device: DeviceView, world: World, error: DeviceError) -> bool {
    let rows = device.store.dirty;
    let objects = device.manifest.objects;
    ||| exists|k: int|
        0 <= k < rows.len() && object_content(device, world, (#[trigger] rows[k]).object_id) is None
    ||| error matches DeviceError::ManifestMissing { object_id } && dirty_at(rows, object_id)
        is Some && forall|i: int|
        0 <= i < objects.len() ==> (#[trigger] objects[i]).object_id != object_id
    ||| error matches DeviceError::DuplicateObject { object_id } && is_listed_twice(
        objects,
        object_id,
    )
}

spec fn flush_fair(device: DeviceView, world: World, step: StepView) -> bool {
    &&& same_numbers(device.manifest.objects, step.device.manifest.objects)
    &&& step.outcome matches OutcomeView::Refused { error } ==> flush_refusal(device, world, error)
}

proof fn lemma_flush_fair(
    device: DeviceView,
    world: World,
    step: StepView,
    before: World,
    at: int,
    reply: ReplyView,
    now: Seq<char>,
    after: World,
)
    requires
        dirty_in_order(device.store.dirty),
        before.files == world.files,
        flush_shape(step, before, device.store.dirty, at),
        flush_fair(device, world, step),
        answered(before, step.outcome->Wait_action, reply, after),
        !(reply is Failed),
    ensures
        after.files == world.files,
        flush_fair(device, world, resumed(step.device, step.outcome->Wait_op, reply, now)),
        ({
            let next = resumed(step.device, step.outcome->Wait_op, reply, now);
            next.outcome is Wait ==> flush_shape(next, after, device.store.dirty, at)
                || flush_shape(next, after, device.store.dirty, at + 1)
        }),
{
    let d = step.device;
    let rows = device.store.dirty;
    let next = resumed(d, step.outcome->Wait_op, reply, now);
    match step.outcome->Wait_op {
        OpView::Flush { stage, .. } => match stage {
            FlushStageView::Reading => {
                lemma_dirty_at(rows, at);
                if next.outcome is Refused {
                    assert(object_content(device, world, rows[at].object_id) is None);
                }
            },
            FlushStageView::Sending { .. } => {
                let id = rows[at].object_id;
                lemma_dirty_at(rows, at);
                lemma_same_numbers(device.manifest.objects, d.manifest.objects, id);
                lemma_entry_index(device.manifest.objects, id);
                lemma_entry_index(d.manifest.objects, id);
                match entry_index(d.manifest.objects, id) {
                    Some(i) => {
                        assert forall|k: int| 0 <= k < device.manifest.objects.len() implies (
                        #[trigger] device.manifest.objects[k]).object_id == (
                        #[trigger] next.device.manifest.objects[k]).object_id by {
                            assert(device.manifest.objects[k].object_id
                                == d.manifest.objects[k].object_id);
                        }
                    },
                    None => {},
                }
            },
            FlushStageView::Committing => {},
            FlushStageView::Encoding => {
                lemma_first_repeat(d.manifest.objects);
                if next.outcome is Refused {
                    let id = first_repeat(d.manifest.objects)->0;
                    let (i, j) = choose|i: int, j: int|
                        0 <= i < j < d.manifest.objects.len() && (
                        #[trigger] d.manifest.objects[i]).object_id == id && (
                        #[trigger] d.manifest.objects[j]).object_id == id;
                    assert(device.manifest.objects[i].object_id == id);
                    assert(device.manifest.objects[j].object_id == id);
                    assert(is_listed_twice(device.manifest.objects, id));
                }
            },
        },
        _ => {},
    }
}

proof fn lemma_flush_leads_fair(
    device: DeviceView,
    world: World,
    step: StepView,
    before: World,
    at: int,
    events: Seq<Event>,
    last: StepView,
    after: World,
)
    requires
        dirty_in_order(device.store.dirty),
        before.files == world.files,
        flush_fair(device, world, step),
        step.outcome is Wait ==> flush_shape(step, before, device.store.dirty, at),
        leads_to(step, before, events, last, after),
    ensures
        last.outcome matches OutcomeView::Refused { error } ==> outside_failed(events, error)
            || flush_refusal(device, world, error),
    decreases events.len(),
{
    if events.len() > 0 {
        reveal_with_fuel(leads_to, 2);
        let event = events[0];
        let rest = events.skip(1);
        let next = resumed(step.device, step.outcome->Wait_op, event.reply, event.now);
        if rest.len() > 0 {
            assert(rest.last() == events.last());
        }
        if event.reply is Failed {
            assert(next.outcome == (OutcomeView::Refused { error: DeviceError::Outside }));
        } else {
            lemma_flush_fair(
                device,
                world,
                step,
                before,
                at,
                event.reply,
                event.now,
                event.world,
            );
            let ahead = if flush_shape(next, event.world, device.store.dirty, at) {
                at
            } else {
                at + 1
            };
            lemma_flush_leads_fair(
                device,
                world,
                next,
                event.world,
                ahead,
                rest,
                last,
                after,
            );
        }
    }
}

/// A flush is refused only where the outside work that it asked for last failed, a dirty
/// object cannot be read, a dirty object is not listed in the manifest, or the manifest lists
/// an object twice.
pub proof fn law_flush_is_refused_for_a_reason(
    device: DeviceView,
    world: World,
    events: Seq<Event>,
    last: StepView,
    after: World,
)
    requires
        dirty_in_order(device.store.dirty),
        leads_to(flush_started(device), world, events, last, after),
    ensures
        last.outcome matches OutcomeView::Refused { error } ==> outside_failed(events, error)
            || flush_refusal(device, world, error),
{
    lemma_flush_leads_fair(
        device,
        world,
        flush_started(device),
        world,
        0,
        events,
        last,
        after,
    );
}

/// How far the reading of an object has come.
spec fn object_progress(stage: ObjectStageView) -> int {
    match stage {
        ObjectStageView::Dirty { .. } => 0,
        ObjectStageView::Cached { .. } => 0,
        ObjectStageView::Remote { .. } => 1,
        ObjectStageView::Saving { .. } => 2,
    }
}

/// How many replies looking ahead takes at most.
spec fn ahead_rounds(device: DeviceView) -> int {
    2 * device.read_ahead_objects + 1
}

/// How many replies a request waits for at most.
spec fn rounds(device: DeviceView, outcome: OutcomeView) -> int {
    match outcome {
        OutcomeView::Wait { op, .. } => match op {
            OpView::Read { remaining, stage, .. } => match stage {
                ReadStageView::Object { stage } => 3 * remaining - object_progress(stage)
                    + ahead_rounds(device),
                ReadStageView::Probing { next, end, wanted, .. } => 2 * (end - next) + wanted.len()
                    + 1,
                ReadStageView::Fetching { wanted } => wanted.len() as int + 1,
                ReadStageView::Storing { wanted, at, .. } => wanted.len() - at,
            },
            OpView::Write { input, at, stage, .. } => match stage {
                WriteStageView::Reading { stage } => 4 * (input.len() - at) - object_progress(
                    stage,
                ),
                WriteStageView::Saving { .. } => 4 * (input.len() - at) - 3,
            },
            OpView::Flush { rows, at, stage } => match stage {
                FlushStageView::Reading => 2 * (rows.len() - at) + 2,
                FlushStageView::Sending { .. } => 2 * (rows.len() - at) + 1,
                FlushStageView::Committing => 2,
                FlushStageView::Encoding => 1,
            },
        },
        _ => 0,
    }
}

/// A request on its way has something left to do.
spec fn has_work(outcome: OutcomeView) -> bool {
    match outcome {
        OutcomeView::Wait { op, .. } => match op {
            OpView::Read { cursor, remaining, stage, .. } => 0 <= cursor && match stage {
                ReadStageView::Object { .. } => remaining > 0,
                ReadStageView::Probing { next, end, .. } => next < end,
                ReadStageView::Fetching { .. } => true,
                ReadStageView::Storing { wanted, at, .. } => 0 <= at < wanted.len(),
            },
            OpView::Write { cursor, input, at, .. } => 0 <= cursor && 0 <= at < input.len(),
            OpView::Flush { rows, at, stage } => 0 <= at <= rows.len() && (stage is Reading
                || stage is Sending ==> at < rows.len()),
        },
        _ => true,
    }
}

proof fn lemma_probe_rounds(
    device: DeviceView,
    cursor: int,
    out: Seq<u8>,
    next: u64,
    end: u64,
    wanted: Seq<StoredView>,
)
    requires
        0 <= cursor,
        next <= end,
    ensures
        ({
            let (d, outcome) = probe_on(device, cursor, out, next, end, wanted);
            &&& has_work(outcome)
            &&& same_settings(device, d)
            &&& rounds(d, outcome) <= 2 * (end - next) + wanted.len() + 1
        }),
    decreases end - next,
{
    if next < end {
        lemma_probe_rounds(device, cursor, out, (next + 1) as u64, end, wanted);
    }
}

proof fn lemma_store_rounds(
    device: DeviceView,
    cursor: int,
    out: Seq<u8>,
    wanted: Seq<StoredView>,
    payloads: Seq<Option<Seq<u8>>>,
    at: int,
)
    requires
        0 <= cursor,
        0 <= at <= wanted.len(),
    ensures
        has_work(store_on(device, cursor, out, wanted, payloads, at)),
        rounds(device, store_on(device, cursor, out, wanted, payloads, at)) <= wanted.len() - at,
    decreases wanted.len() - at,
{
    if at < wanted.len() {
        lemma_store_rounds(device, cursor, out, wanted, payloads, at + 1);
    }
}

proof fn lemma_read_rounds(device: DeviceView, cursor: int, remaining: int, out: Seq<u8>)
    requires
        object_size(device) > 0,
        0 <= cursor,
        0 <= remaining,
    ensures
        ({
            let (d, outcome) = read_on(device, cursor, remaining, out);
            &&& has_work(outcome)
            &&& same_settings(device, d)
            &&& rounds(d, outcome) <= 3 * remaining + ahead_rounds(device)
        }),
    decreases remaining,
{
    if remaining == 0 {
        let next = object_at(device, cursor);
        let end = if next + device.read_ahead_objects <= u64::MAX {
            (next + device.read_ahead_objects) as u64
        } else {
            u64::MAX
        };
        lemma_probe_rounds(device, cursor, out, next, end, Seq::empty());
    } else {
        let place = place_at(device, cursor);
        let span = span_at(device, cursor, remaining);
        lemma_span(device, cursor, remaining);
        match object_started(device, object_at(device, cursor)) {
            ObjectOutcomeView::Read { bytes } => {
                lemma_read_rounds(
                    device,
                    cursor + span,
                    remaining - span,
                    out + bytes.subrange(place, place + span),
                );
            },
            _ => {},
        }
    }
}

proof fn lemma_object_rounds(
    device: DeviceView,
    stage: ObjectStageView,
    reply: ReplyView,
    now: Seq<char>,
)
    ensures
        ({
            let step = object_resumed(device, stage, reply, now);
            &&& same_settings(device, step.device)
            &&& step.outcome matches ObjectOutcomeView::Wait { stage: next, .. }
                ==> object_progress(next) > object_progress(stage)
        }),
{
}

proof fn lemma_read_step_rounds(
    device: DeviceView,
    op: OpView,
    action: ActionView,
    reply: ReplyView,
    now: Seq<char>,
)
    requires
        object_size(device) > 0,
        op is Read,
        has_work(OutcomeView::Wait { op, action }),
    ensures
        ({
            let next = resumed(device, op, reply, now);
            &&& same_settings(device, next.device)
            &&& has_work(next.outcome)
            &&& rounds(next.device, next.outcome) < rounds(
                device,
                (OutcomeView::Wait { op, action }),
            )
        }),
{
    match op {
        OpView::Read { cursor, remaining, out, stage } => match stage {
            ReadStageView::Object { stage } => {
                lemma_object_rounds(device, stage, reply, now);
                lemma_span(device, cursor, remaining);
                let step = object_resumed(device, stage, reply, now);
                let place = place_at(device, cursor);
                let span = span_at(device, cursor, remaining);
                match step.outcome {
                    ObjectOutcomeView::Read { bytes } => {
                        lemma_read_rounds(
                            step.device,
                            cursor + span,
                            remaining - span,
                            out + bytes.subrange(place, place + span),
                        );
                    },
                    _ => {},
                }
            },
            ReadStageView::Probing { next, end, wanted, object } => {
                let bound = (next + 1) as u64;
                lemma_probe_rounds(device, cursor, out, bound, end, wanted.push(object));
                let after = DeviceView {
                    metrics: crate::device::with_hit(device.metrics),
                    ..crate::device::device_changed(
                        device,
                        crate::device::touching(device, object, now),
                    )
                };
                lemma_probe_rounds(after, cursor, out, bound, end, wanted);
            },
            ReadStageView::Fetching { wanted } => match reply {
                ReplyView::Messages { payloads, ms } => {
                    let after = DeviceView {
                        metrics: crate::device::with_download(device.metrics, ms),
                        ..device
                    };
                    lemma_store_rounds(after, cursor, out, wanted, payloads, 0);
                },
                _ => {},
            },
            ReadStageView::Storing { wanted, payloads, at } => {
                let change = crate::device::saving(
                    device,
                    wanted[at].object_id,
                    wanted[at].generation,
                    payloads[at]->0,
                    false,
                    now,
                );
                lemma_store_rounds(
                    crate::device::device_changed(device, change),
                    cursor,
                    out,
                    wanted,
                    payloads,
                    at + 1,
                );
            },
        },
        _ => {},
    }
}

proof fn lemma_write_step_rounds(
    device: DeviceView,
    op: OpView,
    action: ActionView,
    reply: ReplyView,
    now: Seq<char>,
)
    requires
        object_size(device) > 0,
        op is Write,
        has_work(OutcomeView::Wait { op, action }),
    ensures
        ({
            let next = resumed(device, op, reply, now);
            &&& same_settings(device, next.device)
            &&& has_work(next.outcome)
            &&& rounds(next.device, next.outcome) < rounds(
                device,
                (OutcomeView::Wait { op, action }),
            )
        }),
{
    match op {
        OpView::Write { cursor, input, at, stage } => {
            lemma_span(device, cursor, input.len() - at);
            match stage {
                WriteStageView::Reading { stage } => {
                    lemma_object_rounds(device, stage, reply, now);
                },
                _ => {},
            }
        },
        _ => {},
    }
}

proof fn lemma_leads_rounds(
    step: StepView,
    world: World,
    events: Seq<Event>,
    last: StepView,
    after: World,
)
    requires
        object_size(step.device) > 0,
        has_work(step.outcome),
        leads_to(step, world, events, last, after),
    ensures
        same_settings(step.device, last.device),
        has_work(last.outcome),
        events.len() + rounds(last.device, last.outcome) <= rounds(step.device, step.outcome),
    decreases events.len(),
{
    if events.len() > 0 {
        match step.outcome {
            OutcomeView::Wait { op, action } => {
                let event = events[0];
                if op is Read {
                    lemma_read_step_rounds(step.device, op, action, event.reply, event.now);
                } else if op is Write {
                    lemma_write_step_rounds(step.device, op, action, event.reply, event.now);
                }
                lemma_leads_rounds(
                    resumed(step.device, op, event.reply, event.now),
                    event.world,
                    events.skip(1),
                    last,
                    after,
                );
            },
            _ => {},
        }
    }
}

proof fn lemma_waits(device: DeviceView, outcome: OutcomeView)
    requires
        has_work(outcome),
        outcome is Wait,
    ensures
        rounds(device, outcome) > 0,
{
}

/// Every read comes to an end: it asks for outside work at most three times for each byte
/// asked for, and twice for each object that it looks ahead. It changes no setting of the
/// device.
pub proof fn law_reads_end(
    device: DeviceView,
    world: World,
    offset: int,
    len: int,
    events: Seq<Event>,
    last: StepView,
    after: World,
)
    requires
        object_size(device) > 0,
        0 <= offset,
        0 <= len,
        leads_to(read_started(device, offset, len), world, events, last, after),
    ensures
        last.outcome is Wait ==> events.len() < 3 * len + 2 * device.read_ahead_objects + 1,
        same_settings(device, last.device),
{
    lemma_read_rounds(device, offset, len, Seq::empty());
    lemma_leads_rounds(read_started(device, offset, len), world, events, last, after);
    if last.outcome is Wait {
        lemma_waits(last.device, last.outcome);
    }
}

/// Every write comes to an end: it asks for outside work at most four times for each byte
/// written. It changes no setting of the device.
pub proof fn law_writes_end(
    device: DeviceView,
    world: World,
    offset: int,
    input: Seq<u8>,
    events: Seq<Event>,
    last: StepView,
    after: World,
)
    requires
        object_size(device) > 0,
        0 <= offset,
        leads_to(write_started(device, offset, input), world, events, last, after),
    ensures
        last.outcome is Wait ==> events.len() < 4 * input.len(),
        same_settings(device, last.device),
{
    lemma_leads_rounds(write_started(device, offset, input), world, events, last, after);
    if last.outcome is Wait {
        lemma_waits(last.device, last.outcome);
    }
}

/// Every flush comes to an end: it asks for outside work at most twice for each dirty object
/// and twice for the manifest. It changes no setting of the device.
pub proof fn law_flushes_end(
    device: DeviceView,
    world: World,
    events: Seq<Event>,
    last: StepView,
    after: World,
)
    requires
        object_size(device) > 0,
        leads_to(flush_started(device), world, events, last, after),
    ensures
        last.outcome is Wait ==> events.len() < 2 * device.store.dirty.len() + 2,
        same_settings(device, last.device),
{
    lemma_leads_rounds(flush_started(device), world, events, last, after);
    if last.outcome is Wait {
        lemma_waits(last.device, last.outcome);
    }
}

/// No reply says that outside work failed.
pub open spec fn is_undisturbed(events: Seq<Event>) -> bool {
    forall|i: int| 0 <= i < events.len() ==> !((#[trigger] events[i]).reply is Failed)
}

/// A write within the device that no outside work disturbs, that does not overwrite a part of
/// an object that cannot be read, and that leaves fewer objects dirty than the device's limit
/// allows, is not refused: it finishes, after at most four replies for each byte, and has put
/// its input down.
pub proof fn law_undisturbed_write_finishes(
    device: DeviceView,
    world: World,
    offset: int,
    input: Seq<u8>,
    events: Seq<Event>,
    last: StepView,
    after: World,
)
    requires
        object_size(device) > 0,
        0 <= offset,
        offset + input.len() <= device.map.device_size,
        rows_apart(device.store.dirty, device.store.cache_dir),
        !unreadable_edge(device, world, offset, input.len() as int),
        leads_to(write_started(device, offset, input), world, events, last, after),
        is_undisturbed(events),
        last.device.store.dirty.len() < device.max_dirty_objects,
    ensures
        !(last.outcome is Refused),
        events.len() >= 4 * input.len() ==> last.outcome is Finished,
        last.outcome is Finished ==> overwritten(
            device,
            world,
            offset,
            input,
            last.device,
            after,
        ),
{
    law_write_changes_its_bytes_only(device, world, offset, input, events, last, after);
    law_writes_end(device, world, offset, input, events, last, after);
    if events.len() > 0 {
        assert(!(events[events.len() - 1].reply is Failed));
    }
}

/// A read within the device that no outside work disturbs, and whose bytes can all be read, is
/// not refused: it finishes and hands them back.
pub proof fn law_undisturbed_read_finishes(
    device: DeviceView,
    world: World,
    offset: int,
    len: int,
    events: Seq<Event>,
    last: StepView,
    after: World,
)
    requires
        object_size(device) > 0,
        0 <= offset,
        0 <= len,
        offset + len <= device.map.device_size,
        rows_apart(device.store.dirty, device.store.cache_dir),
        forall|position: int|
            offset <= position < offset + len ==> (#[trigger] device_byte(device, world, position))
                is Some,
        leads_to(read_started(device, offset, len), world, events, last, after),
        is_undisturbed(events),
    ensures
        !(last.outcome is Refused),
        events.len() >= 3 * len + 2 * device.read_ahead_objects + 1 ==> last.outcome is Finished,
        last.outcome matches OutcomeView::Finished { bytes } ==> {
            &&& bytes.len() == len
            &&& forall|i: int|
                0 <= i < len ==> device_byte(device, world, offset + i) == Some(#[trigger] bytes[i])
        },
{
    law_read_returns_content(device, world, offset, len, events, last, after);
    law_reads_end(device, world, offset, len, events, last, after);
    if events.len() > 0 {
        assert(!(events[events.len() - 1].reply is Failed));
    }
}

/// A flush that no outside work disturbs is not refused, where every dirty object can be read
/// and is listed in the manifest, which lists nothing twice: it finishes, after at most two
/// replies for each dirty object and two for the manifest.
pub proof fn law_undisturbed_flush_finishes(
    device: DeviceView,
    world: World,
    events: Seq<Event>,
    last: StepView,
    after: World,
)
    requires
        object_size(device) > 0,
        dirty_in_order(device.store.dirty),
        forall|error: DeviceError| !#[trigger] flush_refusal(device, world, error),
        leads_to(flush_started(device), world, events, last, after),
        is_undisturbed(events),
    ensures
        !(last.outcome is Refused),
        events.len() >= 2 * device.store.dirty.len() + 2 ==> last.outcome is Finished,
{
    law_flush_is_refused_for_a_reason(device, world, events, last, after);
    law_flushes_end(device, world, events, last, after);
    if events.len() > 0 {
        assert(!(events[events.len() - 1].reply is Failed));
    }
}

/// A device with as many dirty objects as its limit allows takes no write: one with any input
/// does not finish and makes nothing dirty.
pub proof fn law_full_device_takes_no_write(
    device: DeviceView,
    world: World,
    offset: int,
    input: Seq<u8>,
    events: Seq<Event>,
    last: StepView,
    after: World,
)
    requires
        0 < input.len(),
        device.store.dirty.len() >= device.max_dirty_objects,
        leads_to(write_started(device, offset, input), world, events, last, after),
    ensures
        !(last.outcome is Finished),
        last.device.store.dirty == device.store.dirty,
        last.device.store.wal == device.store.wal,
{
    lemma_full_device(device, write_started(device, offset, input), world, events, last, after);
}

proof fn lemma_full_device(
    device: DeviceView,
    step: StepView,
    world: World,
    events: Seq<Event>,
    last: StepView,
    after: World,
)
    requires
        device.store.dirty.len() >= device.max_dirty_objects,
        step.device.store.dirty == device.store.dirty,
        step.device.store.wal == device.store.wal,
        same_settings(device, step.device),
        !(step.outcome is Finished),
        step.outcome matches OutcomeView::Wait { op, .. } ==> op matches OpView::Write { stage, .. }
            && stage is Reading,
        leads_to(step, world, events, last, after),
    ensures
        !(last.outcome is Finished),
        last.device.store.dirty == device.store.dirty,
        last.device.store.wal == device.store.wal,
    decreases events.len(),
{
    if events.len() > 0 {
        match step.outcome {
            OutcomeView::Wait { op, .. } => {
                let event = events[0];
                lemma_full_device(
                    device,
                    resumed(step.device, op, event.reply, event.now),
                    event.world,
                    events.skip(1),
                    last,
                    after,
                );
            },
            _ => {},
        }
    }
}

} // verus!
