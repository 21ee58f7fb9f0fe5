//! What the bytes of the device are, where they come from, and what requests count.
use vstd::prelude::*;

use crate::cache::{dirty_at, dirty_in_order, object_path};
use crate::device::{
    flush_started, object_at, object_resumed, object_size, object_started,
    place_at, probe_on, read_on, read_started, resumed, store_on, wrapped, write_started,
    ActionView, DeviceMetrics, DeviceView, FlushStageView, ObjectOutcomeView,
    ObjectStageView, OpView, OutcomeView,
    ReadStageView, ReplyView, StepView, StoredView, WriteStageView,
};
use crate::device_laws::{
    answered, device_byte, leads_to, message_at, object_content, Event, World,
};
use crate::digest::sha256_text;
use crate::envelope::{envelope_bytes, law_envelope_round_trip, EnvelopeView};
use crate::flush_laws::{lemma_dirty_at, lemma_dirty_found};
use crate::manifest::{entry_index, lemma_entry_index, lemma_entry_index_is, ManifestObjectView};

verus! {

/// The bytes of an object that was stored with this payload: the payload, cut off or filled up
/// with zeros to the object size.
pub open spec fn is_object_of(object: Seq<u8>, payload: Seq<u8>, size: int) -> bool {
    &&& object.len() == size
    &&& forall|p: int|
        0 <= p < size ==> #[trigger] object[p] == if p < payload.len() {
            payload[p]
        } else {
            0
        }
}

/// The device is its objects, one behind the other: the byte at a place in an object is the
/// byte of the device that lies as many object sizes on as objects come before it. Every object
/// that can be read has the object size.
pub proof fn law_objects_lie_one_behind_the_other(
    device: DeviceView,
    world: World,
    object_id: u64,
    place: int,
)
    requires
        0 <= place < device.map.object_size,
    ensures
        device_byte(device, world, object_id * device.map.object_size + place) == match object_content(
            device,
            world,
            object_id,
        ) {
            Some(bytes) => Some(bytes[place]),
            None => None,
        },
        object_content(device, world, object_id) matches Some(bytes) ==> bytes.len()
            == device.map.object_size,
{
    let size = device.map.object_size as int;
    let position = object_id * size + place;
    vstd::arithmetic::div_mod::lemma_fundamental_div_mod_converse(
        position,
        size,
        object_id as int,
        place,
    );
}

/// A dirty object holds what its cache file holds, whatever the manifest says of it and
/// wherever else a copy of it lies.
pub proof fn law_dirty_object_comes_from_its_file(
    device: DeviceView,
    world: World,
    k: int,
    payload: Seq<u8>,
    stored_size: u32,
    flags: u32,
)
    requires
        dirty_in_order(device.store.dirty),
        0 <= k < device.store.dirty.len(),
        payload.len() <= u64::MAX,
        ({
            let row = device.store.dirty[k];
            let bytes = envelope_bytes(
                EnvelopeView {
                    object_id: row.object_id,
                    generation: row.generation,
                    object_size: stored_size,
                    flags,
                    payload,
                },
            );
            &&& world.files.dom().contains(row.cache_path)
            &&& world.files[row.cache_path] == bytes
            &&& row.sha256 == sha256_text(bytes)
        }),
    ensures
        object_content(device, world, device.store.dirty[k].object_id) matches Some(object)
            && is_object_of(object, payload, device.map.object_size as int),
{
    let row = device.store.dirty[k];
    lemma_dirty_at(device.store.dirty, k);
    law_envelope_round_trip(
        EnvelopeView {
            object_id: row.object_id,
            generation: row.generation,
            object_size: stored_size,
            flags,
            payload,
        },
    );
}

/// No dirty object has the number.
pub open spec fn is_clean(device: DeviceView, object_id: u64) -> bool {
    forall|k: int|
        0 <= k < device.store.dirty.len() ==> (#[trigger] device.store.dirty[k]).object_id
            != object_id
}

/// The manifest lists an object at position `i` under a number that it does not have before.
pub open spec fn is_entry(objects: Seq<ManifestObjectView>, i: int) -> bool {
    &&& 0 <= i < objects.len()
    &&& forall|k: int| 0 <= k < i ==> (#[trigger] objects[k]).object_id != objects[i].object_id
}

proof fn lemma_clean(device: DeviceView, object_id: u64)
    requires
        is_clean(device, object_id),
    ensures
        dirty_at(device.store.dirty, object_id) is None,
{
    if dirty_at(device.store.dirty, object_id) is Some {
        let k = lemma_dirty_found(device.store.dirty, object_id);
        assert(device.store.dirty[k].object_id != object_id);
    }
}

/// A clean object that was written holds what its cache file holds, and where it has none, what
/// its message holds; one that was never written holds zeros; and there is no object that the
/// manifest does not list.
pub proof fn law_clean_object_comes_from_its_copies(
    device: DeviceView,
    world: World,
    i: int,
    payload: Seq<u8>,
    stored_size: u32,
    flags: u32,
    unlisted: u64,
)
    requires
        is_entry(device.manifest.objects, i),
        is_clean(device, device.manifest.objects[i].object_id),
        is_clean(device, unlisted),
        forall|k: int|
            0 <= k < device.manifest.objects.len() ==> (#[trigger] device.manifest.objects[
                k
            ]).object_id != unlisted,
        payload.len() <= u64::MAX,
    ensures
        ({
            let entry = device.manifest.objects[i];
            let bytes = envelope_bytes(
                EnvelopeView {
                    object_id: entry.object_id,
                    generation: entry.generation,
                    object_size: stored_size,
                    flags,
                    payload,
                },
            );
            let path = object_path(device.store.cache_dir, entry.object_id, entry.generation);
            let size = device.map.object_size as int;
            let content = object_content(device, world, entry.object_id);
            &&& entry.zero ==> content is Some && is_object_of(content->0, Seq::empty(), size)
            &&& !entry.zero && entry.remote is Some && entry.sha256 == Some(sha256_text(bytes))
                && world.files.dom().contains(path) && world.files[path] == bytes
                ==> content is Some && is_object_of(content->0, payload, size)
            &&& !entry.zero && entry.remote is Some && entry.sha256 == Some(sha256_text(bytes))
                && !world.files.dom().contains(path) && message_at(
                world,
                entry.remote->0.message_id,
            ) == Some(bytes) ==> content is Some && is_object_of(content->0, payload, size)
        }),
        object_content(device, world, unlisted) is None,
{
    let objects = device.manifest.objects;
    let entry = objects[i];
    lemma_clean(device, entry.object_id);
    lemma_clean(device, unlisted);
    lemma_entry_index_is(objects, entry.object_id, i);
    lemma_entry_index(objects, unlisted);
    law_envelope_round_trip(
        EnvelopeView {
            object_id: entry.object_id,
            generation: entry.generation,
            object_size: stored_size,
            flags,
            payload,
        },
    );
}

/// What requests add to the running totals.
#[verifier::ext_equal]
pub struct Tally {
    pub cache_hits: int,
    pub cache_misses: int,
    pub uploads: int,
    pub upload_ms: int,
    pub downloads: int,
    pub download_ms: int,
}

/// The object whose cache file a request is looking for, if it is.
pub open spec fn looked_for(op: OpView) -> Option<StoredView> {
    match op {
        OpView::Read { stage, .. } => match stage {
            ReadStageView::Object { stage: ObjectStageView::Cached { object } } => Some(object),
            ReadStageView::Probing { object, .. } => Some(object),
            _ => None,
        },
        OpView::Write { stage, .. } => match stage {
            WriteStageView::Reading { stage: ObjectStageView::Cached { object } } => Some(object),
            _ => None,
        },
        _ => None,
    }
}

/// How many objects an outcome asks to be fetched.
pub open spec fn asked_objects(outcome: OutcomeView) -> int {
    match outcome {
        OutcomeView::Wait { action, .. } => match action {
            ActionView::Fetch { .. } => 1,
            ActionView::FetchMany { ids } => ids.len() as int,
            _ => 0,
        },
        _ => 0,
    }
}

/// What one reply adds to the totals, where the request goes on with `outcome`: a cache file that
/// was looked for and found undamaged is a hit, an object that has to be fetched is a miss, and
/// transfers count with their milliseconds, a joint one as one.
pub open spec fn step_tally(op: OpView, reply: ReplyView, outcome: OutcomeView) -> Tally {
    let (up, up_ms): (int, int) = match reply {
        ReplyView::Sent { ms, .. } => (1, ms as int),
        _ => (0, 0),
    };
    let (down, down_ms): (int, int) = match reply {
        ReplyView::Fetched { ms, .. } => (1, ms as int),
        ReplyView::Messages { ms, .. } => (1, ms as int),
        _ => (0, 0),
    };
    let hit: int = match (looked_for(op), reply) {
        (Some(object), ReplyView::File { content }) => if sha256_text(content) == object.sha256 {
            1
        } else {
            0
        },
        _ => 0,
    };
    Tally {
        cache_hits: hit,
        cache_misses: asked_objects(outcome),
        uploads: up,
        upload_ms: up_ms,
        downloads: down,
        download_ms: down_ms,
    }
}

/// Both together.
pub open spec fn tally_sum(left: Tally, right: Tally) -> Tally {
    Tally {
        cache_hits: left.cache_hits + right.cache_hits,
        cache_misses: left.cache_misses + right.cache_misses,
        uploads: left.uploads + right.uploads,
        upload_ms: left.upload_ms + right.upload_ms,
        downloads: left.downloads + right.downloads,
        download_ms: left.download_ms + right.download_ms,
    }
}

/// What a request adds to the totals on its way.
pub open spec fn tally(step: StepView, events: Seq<Event>) -> Tally
    decreases events.len(),
{
    match step.outcome {
        OutcomeView::Wait { op, .. } if events.len() > 0 => {
            let next = resumed(step.device, op, events[0].reply, events[0].now);
            tally_sum(
                step_tally(op, events[0].reply, next.outcome),
                tally(next, events.skip(1)),
            )
        },
        _ => Tally {
            cache_hits: 0,
            cache_misses: 0,
            uploads: 0,
            upload_ms: 0,
            downloads: 0,
            download_ms: 0,
        },
    }
}

/// A counter that was `before` and to which `count` was added is `after`: counters wrap around
/// behind the largest number of 64 bits.
#[verifier::opaque]
pub open spec fn counted(before: u64, count: int, after: u64) -> bool {
    after == (before + count) % 0x1_0000_0000_0000_0000
}

/// The totals were `before`, and after what `tally` says they are `after`.
pub open spec fn totals_follow(before: DeviceMetrics, tally: Tally, after: DeviceMetrics) -> bool {
    &&& counted(before.cache_hits, tally.cache_hits, after.cache_hits)
    &&& counted(before.cache_misses, tally.cache_misses, after.cache_misses)
    &&& counted(before.uploads, tally.uploads, after.uploads)
    &&& counted(before.upload_ms_total, tally.upload_ms, after.upload_ms_total)
    &&& counted(before.downloads, tally.downloads, after.downloads)
    &&& counted(before.download_ms_total, tally.download_ms, after.download_ms_total)
}

/// What adding to a counter comes to.
proof fn lemma_counters()
    ensures
        forall|before: u64, count: u64|
            counted(before, count as int, #[trigger] wrapped(before, count)),
        forall|before: u64| #[trigger] counted(before, 0, before),
{
    reveal(counted);
}

/// A request waits for the action of its stage, and has not wanted more objects than it has
/// passed.
spec fn countable(outcome: OutcomeView) -> bool {
    outcome matches OutcomeView::Wait { op, action } ==> match op {
        OpView::Read { stage, .. } => match stage {
            ReadStageView::Object { stage } => object_waits(stage, action),
            ReadStageView::Probing { next, end, wanted, .. } => {
                &&& wanted.len() <= next < end
                &&& action is ReadFile
            },
            ReadStageView::Fetching { .. } => action is FetchMany,
            ReadStageView::Storing { .. } => action is WriteFile,
        },
        OpView::Write { stage, .. } => match stage {
            WriteStageView::Reading { stage } => object_waits(stage, action),
            WriteStageView::Saving { .. } => action is WriteFile,
        },
        OpView::Flush { stage, .. } => match stage {
            FlushStageView::Reading => action is ReadFile,
            FlushStageView::Sending { .. } => action is Send,
            FlushStageView::Committing => action is Commit,
            FlushStageView::Encoding => action is EncodeManifest,
        },
    }
}

spec fn object_waits(stage: ObjectStageView, action: ActionView) -> bool {
    match stage {
        ObjectStageView::Dirty { .. } => action is ReadFile,
        ObjectStageView::Cached { .. } => action is ReadFile,
        ObjectStageView::Remote { .. } => action is Fetch,
        ObjectStageView::Saving { .. } => action is WriteFile,
    }
}

#[verifier::rlimit(60)]
proof fn lemma_probe_counts(
    device: DeviceView,
    cursor: int,
    out: Seq<u8>,
    next: u64,
    end: u64,
    wanted: Seq<StoredView>,
)
    requires
        wanted.len() <= next,
    ensures
        ({
            let (after, outcome) = probe_on(device, cursor, out, next, end, wanted);
            &&& countable(outcome)
            &&& after.metrics == (DeviceMetrics {
                cache_misses: after.metrics.cache_misses,
                ..device.metrics
            })
            &&& counted(
                device.metrics.cache_misses,
                asked_objects(outcome),
                after.metrics.cache_misses,
            )
            &&& wanted.len() == 0 ==> asked_objects(outcome) == 0
        }),
    decreases end - next,
{
    lemma_counters();
    if next < end {
        if dirty_at(device.store.dirty, next) is Some {
            lemma_probe_counts(device, cursor, out, (next + 1) as u64, end, wanted);
        } else {
            match entry_index(device.manifest.objects, next) {
                None => {},
                Some(i) => {
                    let entry = device.manifest.objects[i];
                    match crate::device::stored_place(entry) {
                        Ok(_) if !entry.zero => {},
                        _ => {
                            lemma_probe_counts(
                                device,
                                cursor,
                                out,
                                (next + 1) as u64,
                                end,
                                wanted,
                            );
                        },
                    }
                },
            }
        }
    }
}

proof fn lemma_read_counts(device: DeviceView, cursor: int, remaining: int, out: Seq<u8>)
    ensures
        ({
            let (after, outcome) = read_on(device, cursor, remaining, out);
            &&& countable(outcome)
            &&& after.metrics == device.metrics
            &&& asked_objects(outcome) == 0
        }),
    decreases remaining,
{
    reveal(counted);
    if remaining <= 0 || object_size(device) <= 0 {
        let next = object_at(device, cursor);
        let end = if next + device.read_ahead_objects <= u64::MAX {
            (next + device.read_ahead_objects) as u64
        } else {
            u64::MAX
        };
        lemma_probe_counts(device, cursor, out, next, end, Seq::empty());
    } else {
        let place = place_at(device, cursor);
        let span = crate::device::span_at(device, cursor, remaining);
        match object_started(device, object_at(device, cursor)) {
            ObjectOutcomeView::Read { bytes } => {
                if span > 0 {
                    lemma_read_counts(
                        device,
                        cursor + span,
                        remaining - span,
                        out + bytes.subrange(place, place + span),
                    );
                }
            },
            _ => {},
        }
    }
}

proof fn lemma_store_counts(
    device: DeviceView,
    cursor: int,
    out: Seq<u8>,
    wanted: Seq<StoredView>,
    payloads: Seq<Option<Seq<u8>>>,
    at: int,
)
    ensures
        countable(store_on(device, cursor, out, wanted, payloads, at)),
        asked_objects(store_on(device, cursor, out, wanted, payloads, at)) == 0,
    decreases wanted.len() - at,
{
    if 0 <= at < wanted.len() && at < payloads.len() && !crate::device::is_stored_form(
        wanted[at],
        payloads[at],
    ) {
        lemma_store_counts(device, cursor, out, wanted, payloads, at + 1);
    }
}

/// What a reply adds while an object is being read.
#[verifier::rlimit(60)]
proof fn lemma_object_counts(
    device: DeviceView,
    stage: ObjectStageView,
    action: ActionView,
    reply: ReplyView,
    now: Seq<char>,
    world: World,
    after: World,
)
    requires
        object_waits(stage, action),
        answered(world, action, reply, after),
    ensures
        ({
            let inner = object_resumed(device, stage, reply, now);
            let hit: int = match (stage, reply) {
                (ObjectStageView::Cached { object }, ReplyView::File { content }) => {
                    if sha256_text(content) == object.sha256 {
                        1
                    } else {
                        0
                    }
                },
                _ => 0,
            };
            let miss: int = match inner.outcome {
                ObjectOutcomeView::Wait { action, .. } => if action is Fetch {
                    1
                } else {
                    0
                },
                _ => 0,
            };
            let (down, down_ms): (int, int) = match reply {
                ReplyView::Fetched { ms, .. } => (1, ms as int),
                _ => (0, 0),
            };
            &&& !(reply is Sent) && !(reply is Messages)
            &&& totals_follow(
                device.metrics,
                Tally {
                    cache_hits: hit,
                    cache_misses: miss,
                    uploads: 0,
                    upload_ms: 0,
                    downloads: down,
                    download_ms: down_ms,
                },
                inner.device.metrics,
            )
            &&& inner.outcome matches ObjectOutcomeView::Wait { stage, action } ==> object_waits(
                stage,
                action,
            ) && !(action is FetchMany)
        }),
{
    lemma_counters();
}

/// One step adds what it should.
spec fn step_counts(device: DeviceView, op: OpView, reply: ReplyView, now: Seq<char>) -> bool {
    let next = resumed(device, op, reply, now);
    &&& countable(next.outcome)
    &&& totals_follow(
        device.metrics,
        step_tally(op, reply, next.outcome),
        next.device.metrics,
    )
}

#[verifier::rlimit(60)]
proof fn lemma_reading_counts(step: StepView, world: World, event: Event)
    requires
        countable(step.outcome),
        step.outcome matches OutcomeView::Wait { op, action } && op matches OpView::Read {
            stage,
            ..
        } && stage is Object && answered(world, action, event.reply, event.world),
    ensures
        step_counts(step.device, step.outcome->Wait_op, event.reply, event.now),
{
    lemma_counters();
    let device = step.device;
    match step.outcome {
        OutcomeView::Wait {
            op: OpView::Read { cursor, remaining, out, stage: ReadStageView::Object { stage } },
            action,
        } => {
            lemma_object_counts(
                device,
                stage,
                action,
                event.reply,
                event.now,
                world,
                event.world,
            );
            let inner = object_resumed(device, stage, event.reply, event.now);
            let place = place_at(device, cursor);
            let span = crate::device::span_at(device, cursor, remaining);
            match inner.outcome {
                ObjectOutcomeView::Read { bytes } => {
                    lemma_read_counts(
                        inner.device,
                        cursor + span,
                        remaining - span,
                        out + bytes.subrange(place, place + span),
                    );
                },
                _ => {},
            }
        },
        _ => {},
    }
}

#[verifier::spinoff_prover]
#[verifier::rlimit(60)]
proof fn lemma_probing_counts(step: StepView, world: World, event: Event)
    requires
        countable(step.outcome),
        step.outcome matches OutcomeView::Wait { op, action } && op matches OpView::Read {
            stage,
            ..
        } && stage is Probing && answered(world, action, event.reply, event.world),
    ensures
        step_counts(step.device, step.outcome->Wait_op, event.reply, event.now),
{
    lemma_counters();
    let device = step.device;
    match step.outcome {
        OutcomeView::Wait {
            op: OpView::Read {
                cursor,
                out,
                stage: ReadStageView::Probing { next: at, end, wanted, object },
                ..
            },
            ..
        } => match event.reply {
            ReplyView::NoFile => {
                lemma_probe_counts(
                    device,
                    cursor,
                    out,
                    (at + 1) as u64,
                    end,
                    wanted.push(object),
                );
            },
            ReplyView::File { content } => {
                let change = crate::device::touching(device, object, event.now);
                let after = DeviceView {
                    metrics: crate::device::with_hit(device.metrics),
                    ..crate::device::device_changed(device, change)
                };
                lemma_probe_counts(after, cursor, out, (at + 1) as u64, end, wanted);
            },
            _ => {},
        },
        _ => {},
    }
}

#[verifier::spinoff_prover]
#[verifier::rlimit(60)]
proof fn lemma_fetching_counts(step: StepView, world: World, event: Event)
    requires
        countable(step.outcome),
        step.outcome matches OutcomeView::Wait { op, action } && op matches OpView::Read {
            stage,
            ..
        } && stage is Fetching && answered(world, action, event.reply, event.world),
    ensures
        step_counts(step.device, step.outcome->Wait_op, event.reply, event.now),
{
    lemma_counters();
    let next = resumed(step.device, step.outcome->Wait_op, event.reply, event.now);
    match step.outcome {
        OutcomeView::Wait {
            op: OpView::Read { cursor, out, stage: ReadStageView::Fetching { wanted }, .. },
            ..
        } => match event.reply {
            ReplyView::Messages { payloads, .. } => {
                lemma_store_counts(next.device, cursor, out, wanted, payloads, 0);
            },
            _ => {},
        },
        _ => {},
    }
}

#[verifier::spinoff_prover]
#[verifier::rlimit(60)]
proof fn lemma_storing_counts(step: StepView, world: World, event: Event)
    requires
        countable(step.outcome),
        step.outcome matches OutcomeView::Wait { op, action } && op matches OpView::Read {
            stage,
            ..
        } && stage is Storing && answered(world, action, event.reply, event.world),
    ensures
        step_counts(step.device, step.outcome->Wait_op, event.reply, event.now),
{
    lemma_counters();
    let next = resumed(step.device, step.outcome->Wait_op, event.reply, event.now);
    match step.outcome {
        OutcomeView::Wait {
            op: OpView::Read {
                cursor,
                out,
                stage: ReadStageView::Storing { wanted, payloads, at },
                ..
            },
            ..
        } => {
            lemma_store_counts(next.device, cursor, out, wanted, payloads, at + 1);
        },
        _ => {},
    }
}

#[verifier::rlimit(60)]
proof fn lemma_writing_counts(step: StepView, world: World, event: Event)
    requires
        countable(step.outcome),
        step.outcome matches OutcomeView::Wait { op, action } && op is Write && answered(
            world,
            action,
            event.reply,
            event.world,
        ),
    ensures
        step_counts(step.device, step.outcome->Wait_op, event.reply, event.now),
{
    lemma_counters();
    match step.outcome {
        OutcomeView::Wait {
            op: OpView::Write { stage: WriteStageView::Reading { stage }, .. },
            action,
        } => {
            lemma_object_counts(
                step.device,
                stage,
                action,
                event.reply,
                event.now,
                world,
                event.world,
            );
        },
        _ => {},
    }
}

#[verifier::rlimit(60)]
proof fn lemma_flushing_counts(step: StepView, world: World, event: Event)
    requires
        countable(step.outcome),
        step.outcome matches OutcomeView::Wait { op, action } && op is Flush && answered(
            world,
            action,
            event.reply,
            event.world,
        ),
    ensures
        step_counts(step.device, step.outcome->Wait_op, event.reply, event.now),
{
    lemma_counters();
}

proof fn lemma_counted_on(before: u64, first: int, middle: u64, second: int, after: u64)
    requires
        counted(before, first, middle),
        counted(middle, second, after),
    ensures
        counted(before, first + second, after),
{
    reveal(counted);
    let range = 0x1_0000_0000_0000_0000int;
    assert((before + (first + second)) % range == ((before + first) % range + second) % range) by {
        vstd::arithmetic::div_mod::lemma_add_mod_noop(before + first, second, range);
        vstd::arithmetic::div_mod::lemma_add_mod_noop((before + first) % range, second, range);
        vstd::arithmetic::div_mod::lemma_mod_twice(before + first, range);
    }
}

#[verifier::rlimit(60)]
proof fn lemma_leads_counts(
    step: StepView,
    world: World,
    events: Seq<Event>,
    last: StepView,
    after: World,
)
    requires
        countable(step.outcome),
        leads_to(step, world, events, last, after),
    ensures
        totals_follow(step.device.metrics, tally(step, events), last.device.metrics),
    decreases events.len(),
{
    lemma_counters();
    if events.len() > 0 {
        let event = events[0];
        let op = step.outcome->Wait_op;
        let next = resumed(step.device, op, event.reply, event.now);
        match op {
            OpView::Read { stage, .. } => match stage {
                ReadStageView::Object { .. } => {
                    lemma_reading_counts(step, world, event);
                },
                ReadStageView::Probing { .. } => {
                    lemma_probing_counts(step, world, event);
                },
                ReadStageView::Fetching { .. } => {
                    lemma_fetching_counts(step, world, event);
                },
                ReadStageView::Storing { .. } => {
                    lemma_storing_counts(step, world, event);
                },
            },
            OpView::Write { .. } => {
                lemma_writing_counts(step, world, event);
            },
            OpView::Flush { .. } => {
                lemma_flushing_counts(step, world, event);
            },
        }
        lemma_leads_counts(next, event.world, events.skip(1), last, after);
        let one = step_tally(op, event.reply, next.outcome);
        let rest = tally(next, events.skip(1));
        assert(tally(step, events) == tally_sum(one, rest));
        let (a, b, c) = (step.device.metrics, next.device.metrics, last.device.metrics);
        lemma_counted_on(a.cache_hits, one.cache_hits, b.cache_hits, rest.cache_hits, c.cache_hits);
        lemma_counted_on(
            a.cache_misses,
            one.cache_misses,
            b.cache_misses,
            rest.cache_misses,
            c.cache_misses,
        );
        lemma_counted_on(a.uploads, one.uploads, b.uploads, rest.uploads, c.uploads);
        lemma_counted_on(
            a.upload_ms_total,
            one.upload_ms,
            b.upload_ms_total,
            rest.upload_ms,
            c.upload_ms_total,
        );
        lemma_counted_on(a.downloads, one.downloads, b.downloads, rest.downloads, c.downloads);
        lemma_counted_on(
            a.download_ms_total,
            one.download_ms,
            b.download_ms_total,
            rest.download_ms,
            c.download_ms_total,
        );
    }
}

/// The running totals follow what requests did: a read adds what it found in the cache, what it
/// had to fetch, and its downloads.
pub proof fn law_totals_follow_reads(
    device: DeviceView,
    world: World,
    offset: int,
    len: int,
    events: Seq<Event>,
    last: StepView,
    after: World,
)
    requires
        leads_to(read_started(device, offset, len), world, events, last, after),
    ensures
        totals_follow(
            device.metrics,
            tally(read_started(device, offset, len), events),
            last.device.metrics,
        ),
{
    lemma_read_counts(device, offset, len, Seq::empty());
    lemma_leads_counts(read_started(device, offset, len), world, events, last, after);
}

/// The running totals follow what requests did: a write adds what it found in the cache and what
/// it had to fetch of the objects that it overwrites in part.
pub proof fn law_totals_follow_writes(
    device: DeviceView,
    world: World,
    offset: int,
    input: Seq<u8>,
    events: Seq<Event>,
    last: StepView,
    after: World,
)
    requires
        leads_to(write_started(device, offset, input), world, events, last, after),
    ensures
        totals_follow(
            device.metrics,
            tally(write_started(device, offset, input), events),
            last.device.metrics,
        ),
{
    lemma_leads_counts(write_started(device, offset, input), world, events, last, after);
}

/// The running totals follow what requests did: a flush adds its uploads.
pub proof fn law_totals_follow_flushes(
    device: DeviceView,
    world: World,
    events: Seq<Event>,
    last: StepView,
    after: World,
)
    requires
        leads_to(flush_started(device), world, events, last, after),
    ensures
        totals_follow(
            device.metrics,
            tally(flush_started(device), events),
            last.device.metrics,
        ),
{
    lemma_leads_counts(flush_started(device), world, events, last, after);
}

} // verus!
