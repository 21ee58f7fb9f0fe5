//! What holds of a device from its formatting on, whatever it is asked.
use vstd::prelude::*;

use crate::cache::{
    cache_at, cache_keys_distinct, cache_without, changed, changed_by, dirty_at, dirty_in_order,
    is_file_of, law_object_paths_are_distinct, object_path, CacheView, ChangeView, DirtyView,
    StoreView,
};
use crate::channel_laws::{
    law_old_messages_are_not_needed, law_published_superblock_leads_to_the_manifest,
    lemma_published, published_superblock,
};
use crate::commit::{commit_started, CommitStepView};
use crate::device::{
    flush_started, object_resumed, object_size, object_started, probe_on, read_on, read_resumed,
    read_started, resumed, store_on, stored_place, write_on, write_started, written_changes, zeros,
    DeviceView, ObjectOutcomeView, ObjectStageView, OpView, OutcomeView, ReadStageView, ReplyView,
    StepView, StoredView, WriteStageView,
};
use crate::device_laws::{
    answered, backed, grown, keeps_content, law_read_returns_content, leads_to,
    lemma_grown_keeps_content, object_content, own_file_agrees, own_files_agree, path_of,
    row_apart, rows_apart, without_files, Event, World,
};
use crate::flush_laws::{
    collected, garbage_ids, garbage_is_dead, law_collecting_garbage_keeps_content,
    law_flush_leaves_no_live_garbage, law_flush_makes_durable,
    law_fresh_machine_holds_the_content, lemma_garbage_was_there, lemma_more_messages_apart,
    messages_apart,
};
use crate::index::{lemma_changed_by_push, removal, removals, victims};
use crate::index_laws::{
    law_cache_lookup, law_dirty_lookup, law_eviction_spares_dirty_and_recent, lemma_cache_at_other,
};
use crate::manifest::{empty_manifest, entry_index, lemma_entry_index};
use crate::manifest_laws::{law_numbered_lookup, well_formed_manifest};
use crate::recovery::{fetch_started, FetchReplyView, FetchStepView};
use crate::recovery_laws::{
    commit_leads_to, fetch_leads_to, fetch_rounds, gives_back, includes,
    law_committed_manifest_is_recovered, lemma_commit_started, names_manifest, Channel, Codec,
    CommitEvent,
};
use crate::store::{
    lemma_cache_without, lemma_cache_without_none, lemma_cache_without_one,
    lemma_put_cache_distinct, lemma_put_dirty_in_order,
};
use crate::superblock::SuperblockView;
use crate::write_laws::{law_write_changes_its_bytes_only, lemma_marked_rows_apart};

verus! {

/// If the entry names the cache file of the object and generation, it is the entry of that
/// file; if it names the file in which the object is dirty, it is the entry of that one.
pub open spec fn entry_apart(
    rows: Seq<DirtyView>,
    cache_dir: Seq<char>,
    entry: CacheView,
    object_id: u64,
    generation: u64,
) -> bool {
    &&& entry.cache_path == object_path(cache_dir, object_id, generation) ==> is_file_of(
        entry,
        object_id,
        generation,
    )
    &&& match dirty_at(rows, object_id) {
        None => true,
        Some(row) => entry.cache_path == row.cache_path ==> is_file_of(
            entry,
            object_id,
            row.generation,
        ),
    }
}

/// No cache entry names a file of another object or of another generation.
pub open spec fn entries_apart(
    cache: Seq<CacheView>,
    rows: Seq<DirtyView>,
    cache_dir: Seq<char>,
) -> bool {
    forall|i: int, object_id: u64, generation: u64|
        0 <= i < cache.len() ==> #[trigger] entry_apart(
            rows,
            cache_dir,
            cache[i],
            object_id,
            generation,
        )
}

/// The cache file of the dirty object, if there is one, has an entry that is marked dirty.
pub open spec fn is_flagged(cache: Seq<CacheView>, object_id: u64, row: Option<DirtyView>) -> bool {
    match row {
        Some(dirty) => cache_at(cache, object_id, dirty.generation) matches Some(entry)
            && entry.dirty,
        None => true,
    }
}

/// The cache entry of every dirty object is marked dirty.
pub open spec fn rows_flagged(store: StoreView) -> bool {
    forall|object_id: u64|
        is_flagged(store.cache, object_id, #[trigger] dirty_at(store.dirty, object_id))
}

/// An index that no request has thrown into disorder.
pub open spec fn kept(store: StoreView) -> bool {
    &&& dirty_in_order(store.dirty)
    &&& cache_keys_distinct(store.cache)
    &&& rows_apart(store.dirty, store.cache_dir)
    &&& entries_apart(store.cache, store.dirty, store.cache_dir)
    &&& rows_flagged(store)
}

/// A device in order: its index and its manifest are, no cache file gives a dirty object
/// other content than it has, and every clean object that can be read can be read from the
/// remote messages alone.
pub open spec fn sound(device: DeviceView, world: World) -> bool {
    &&& object_size(device) > 0
    &&& kept(device.store)
    &&& well_formed_manifest(device.manifest)
    &&& own_files_agree(device, world)
    &&& backed(device, world)
}

proof fn lemma_without_apart(store: StoreView, object_id: u64, generation: u64)
    requires
        cache_keys_distinct(store.cache),
        entries_apart(store.cache, store.dirty, store.cache_dir),
    ensures
        entries_apart(
            cache_without(store.cache, object_id, generation),
            store.dirty,
            store.cache_dir,
        ),
{
    let rows = store.cache;
    let rest = cache_without(rows, object_id, generation);
    if exists|k: int| 0 <= k < rows.len() && is_file_of(#[trigger] rows[k], object_id, generation) {
        let at = choose|k: int|
            0 <= k < rows.len() && is_file_of(#[trigger] rows[k], object_id, generation);
        lemma_cache_without_one(rows, object_id, generation, at);
        assert forall|i: int, id: u64, g: u64|
            0 <= i < rest.len() implies #[trigger] entry_apart(
                store.dirty,
                store.cache_dir,
                rest[i],
                id,
                g,
            ) by {
            let p = if i < at { i } else { i + 1 };
            assert(rest[i] == rows[p]);
            assert(entry_apart(store.dirty, store.cache_dir, rows[p], id, g));
        }
    } else {
        lemma_cache_without_none(rows, object_id, generation);
    }
}

/// Recording a cache file keeps the index in order, if the file is that of no dirty
/// object or is recorded as dirty.
proof fn lemma_put_cache_kept(store: StoreView, entry: CacheView)
    requires
        kept(store),
        entry.cache_path == object_path(store.cache_dir, entry.object_id, entry.generation),
        dirty_at(store.dirty, entry.object_id) matches Some(row) ==> row.generation
            != entry.generation || entry.dirty,
    ensures
        kept(changed(store, ChangeView::PutCache { entry })),
{
    let after = changed(store, ChangeView::PutCache { entry });
    lemma_put_cache_distinct(store.cache, entry);
    lemma_without_apart(store, entry.object_id, entry.generation);
    reveal(rows_apart);
    let rest = cache_without(store.cache, entry.object_id, entry.generation);
    let without = StoreView { cache: rest, ..store };
    assert(after.cache == rest.push(entry));
    assert forall|i: int, id: u64, g: u64|
        0 <= i < after.cache.len() implies #[trigger] entry_apart(
            after.dirty,
            after.cache_dir,
            after.cache[i],
            id,
            g,
        ) by {
        if i < rest.len() {
            assert(after.cache[i] == rest[i]);
            assert(entry_apart(without.dirty, without.cache_dir, without.cache[i], id, g));
        } else {
            assert(row_apart(store.dirty, store.cache_dir, id, entry.object_id, entry.generation));
            if entry.cache_path == object_path(store.cache_dir, id, g) {
                law_object_paths_are_distinct(
                    store.cache_dir,
                    entry.object_id,
                    entry.generation,
                    id,
                    g,
                );
            }
        }
    }
    assert forall|id: u64|
        is_flagged(after.cache, id, #[trigger] dirty_at(after.dirty, id)) by {
        assert(is_flagged(store.cache, id, dirty_at(store.dirty, id)));
        if dirty_at(store.dirty, id) is Some {
            let row = dirty_at(store.dirty, id)->0;
            law_cache_lookup(store.cache, entry, id, row.generation);
        }
    }
}

/// No object in the list is dirty.
pub open spec fn all_clean(dirty: Seq<DirtyView>, objects: Seq<StoredView>) -> bool {
    forall|i: int|
        0 <= i < objects.len() ==> dirty_at(dirty, (#[trigger] objects[i]).object_id) is None
}

/// An object that is read as a clean one is clean.
pub open spec fn stage_clean(dirty: Seq<DirtyView>, stage: ObjectStageView) -> bool {
    match stage {
        ObjectStageView::Dirty { .. } => true,
        ObjectStageView::Cached { object } => dirty_at(dirty, object.object_id) is None,
        ObjectStageView::Remote { object } => dirty_at(dirty, object.object_id) is None,
        ObjectStageView::Saving { object, .. } => dirty_at(dirty, object.object_id) is None,
    }
}

/// The objects that a request treats as clean are clean.
pub open spec fn op_clean(dirty: Seq<DirtyView>, op: OpView) -> bool {
    match op {
        OpView::Read { stage, .. } => match stage {
            ReadStageView::Object { stage } => stage_clean(dirty, stage),
            ReadStageView::Probing { wanted, object, .. } => all_clean(dirty, wanted) && dirty_at(
                dirty,
                object.object_id,
            ) is None,
            ReadStageView::Fetching { wanted } => all_clean(dirty, wanted),
            ReadStageView::Storing { wanted, at, .. } => all_clean(dirty, wanted) && 0 <= at
                < wanted.len(),
        },
        OpView::Write { stage, .. } => match stage {
            WriteStageView::Reading { stage } => stage_clean(dirty, stage),
            WriteStageView::Saving { .. } => true,
        },
        OpView::Flush { .. } => true,
    }
}

/// A request that goes on treats only clean objects as clean.
pub open spec fn outcome_clean(dirty: Seq<DirtyView>, outcome: OutcomeView) -> bool {
    match outcome {
        OutcomeView::Wait { op, .. } => op_clean(dirty, op),
        _ => true,
    }
}

proof fn lemma_object_started_clean(device: DeviceView, object_id: u64)
    ensures
        match object_started(device, object_id) {
            ObjectOutcomeView::Wait { stage, .. } => stage_clean(device.store.dirty, stage),
            _ => true,
        },
{
    lemma_entry_index(device.manifest.objects, object_id);
}

proof fn lemma_probe_on_clean(
    device: DeviceView,
    cursor: int,
    out: Seq<u8>,
    next: u64,
    end: u64,
    wanted: Seq<StoredView>,
)
    requires
        all_clean(device.store.dirty, wanted),
    ensures
        ({
            let (other, outcome) = probe_on(device, cursor, out, next, end, wanted);
            &&& other.store == device.store
            &&& other.manifest == device.manifest
            &&& outcome_clean(device.store.dirty, outcome)
        }),
    decreases end - next,
{
    if next < end {
        lemma_entry_index(device.manifest.objects, next);
        lemma_probe_on_clean(device, cursor, out, (next + 1) as u64, end, wanted);
    }
}

proof fn lemma_read_on_clean(device: DeviceView, cursor: int, remaining: int, out: Seq<u8>)
    ensures
        ({
            let (other, outcome) = read_on(device, cursor, remaining, out);
            &&& other.store == device.store
            &&& other.manifest == device.manifest
            &&& outcome_clean(device.store.dirty, outcome)
        }),
    decreases remaining,
{
    if remaining <= 0 || object_size(device) <= 0 {
        let next = crate::device::object_at(device, cursor);
        let end = if next + device.read_ahead_objects <= u64::MAX {
            (next + device.read_ahead_objects) as u64
        } else {
            u64::MAX
        };
        lemma_probe_on_clean(device, cursor, out, next, end, Seq::empty());
    } else {
        let place = crate::device::place_at(device, cursor);
        let span = crate::device::span_at(device, cursor, remaining);
        let object_id = crate::device::object_at(device, cursor);
        lemma_object_started_clean(device, object_id);
        match object_started(device, object_id) {
            ObjectOutcomeView::Read { bytes } => {
                if span > 0 {
                    lemma_read_on_clean(
                        device,
                        cursor + span,
                        remaining - span,
                        out + bytes.subrange(place, place + span),
                    );
                }
            },
            _ => {},
        }
    }
}

proof fn lemma_store_on_clean(
    device: DeviceView,
    cursor: int,
    out: Seq<u8>,
    wanted: Seq<StoredView>,
    payloads: Seq<Option<Seq<u8>>>,
    at: int,
)
    requires
        all_clean(device.store.dirty, wanted),
    ensures
        outcome_clean(
            device.store.dirty,
            store_on(device, cursor, out, wanted, payloads, at),
        ),
    decreases wanted.len() - at,
{
    if 0 <= at < wanted.len() && at < payloads.len() && !crate::device::is_stored_form(
        wanted[at],
        payloads[at],
    ) {
        lemma_store_on_clean(device, cursor, out, wanted, payloads, at + 1);
    }
}

proof fn lemma_object_step_kept(
    device: DeviceView,
    stage: ObjectStageView,
    reply: ReplyView,
    now: Seq<char>,
)
    requires
        kept(device.store),
        stage_clean(device.store.dirty, stage),
    ensures
        ({
            let step = object_resumed(device, stage, reply, now);
            &&& kept(step.device.store)
            &&& step.device.manifest == device.manifest
            &&& step.device.store.dirty == device.store.dirty
            &&& step.outcome matches ObjectOutcomeView::Wait { stage: next, .. } ==> stage_clean(
                device.store.dirty,
                next,
            )
        }),
{
    match (stage, reply) {
        (ObjectStageView::Cached { object }, ReplyView::File { content }) => {
            lemma_put_cache_kept(
                device.store,
                crate::index::touched_entry(
                    device.store,
                    object.object_id,
                    object.generation,
                    object.sha256,
                    now,
                ),
            );
        },
        (ObjectStageView::Saving { object, encoded }, ReplyView::Done) => {
            lemma_put_cache_kept(
                device.store,
                crate::index::saved_entry(
                    device.store,
                    object.object_id,
                    object.generation,
                    encoded,
                    false,
                    now,
                ),
            );
        },
        _ => {},
    }
}

proof fn lemma_read_step_kept(
    device: DeviceView,
    cursor: int,
    remaining: int,
    out: Seq<u8>,
    stage: ReadStageView,
    reply: ReplyView,
    now: Seq<char>,
)
    requires
        kept(device.store),
        op_clean(device.store.dirty, (OpView::Read { cursor, remaining, out, stage })),
    ensures
        ({
            let step = read_resumed(device, cursor, remaining, out, stage, reply, now);
            &&& kept(step.device.store)
            &&& step.device.manifest == device.manifest
            &&& outcome_clean(step.device.store.dirty, step.outcome)
        }),
{
    match stage {
        ReadStageView::Object { stage } => {
            lemma_object_step_kept(device, stage, reply, now);
            let step = object_resumed(device, stage, reply, now);
            let place = crate::device::place_at(device, cursor);
            let span = crate::device::span_at(device, cursor, remaining);
            match step.outcome {
                ObjectOutcomeView::Read { bytes } => {
                    lemma_read_on_clean(
                        step.device,
                        cursor + span,
                        remaining - span,
                        out + bytes.subrange(place, place + span),
                    );
                },
                _ => {},
            }
        },
        ReadStageView::Probing { next, end, wanted, object } => match reply {
            ReplyView::NoFile => {
                lemma_probe_on_clean(
                    device,
                    cursor,
                    out,
                    (next + 1) as u64,
                    end,
                    wanted.push(object),
                );
            },
            ReplyView::File { content } => {
                let entry = crate::index::touched_entry(
                    device.store,
                    object.object_id,
                    object.generation,
                    object.sha256,
                    now,
                );
                lemma_put_cache_kept(device.store, entry);
                let after = DeviceView {
                    metrics: crate::device::with_hit(device.metrics),
                    store: changed(device.store, ChangeView::PutCache { entry }),
                    ..device
                };
                lemma_probe_on_clean(after, cursor, out, (next + 1) as u64, end, wanted);
            },
            _ => {},
        },
        ReadStageView::Fetching { wanted } => match reply {
            ReplyView::Messages { payloads, ms } => {
                let after = DeviceView {
                    metrics: crate::device::with_download(device.metrics, ms),
                    ..device
                };
                lemma_store_on_clean(after, cursor, out, wanted, payloads, 0);
            },
            _ => {},
        },
        ReadStageView::Storing { wanted, payloads, at } => match reply {
            ReplyView::Done => {
                let entry = crate::index::saved_entry(
                    device.store,
                    wanted[at].object_id,
                    wanted[at].generation,
                    payloads[at]->0,
                    false,
                    now,
                );
                lemma_put_cache_kept(device.store, entry);
                let after = DeviceView {
                    store: changed(device.store, ChangeView::PutCache { entry }),
                    ..device
                };
                lemma_store_on_clean(after, cursor, out, wanted, payloads, at + 1);
            },
            _ => {},
        },
    }
}

/// Recording a written object keeps the index in order.
proof fn lemma_written_kept(
    device: DeviceView,
    object_id: u64,
    generation: u64,
    encoded: Seq<u8>,
    place: int,
    span: int,
    now: Seq<char>,
)
    requires
        kept(device.store),
    ensures
        kept(
            changed_by(
                device.store,
                written_changes(device, object_id, generation, encoded, place, span, now),
            ),
        ),
{
    let store = device.store;
    let entry = crate::index::saved_entry(store, object_id, generation, encoded, true, now);
    let changes = written_changes(device, object_id, generation, encoded, place, span, now);
    let (first, second, third) = (changes[0], changes[1], changes[2]);
    lemma_put_cache_kept(store, entry);
    let saved = changed(store, first);
    let marked = changed(saved, second);
    let all = changed(marked, third);
    assert(changed_by(store, changes) == all) by {
        lemma_changed_by_push(store, seq![first, second], third);
        lemma_changed_by_push(store, seq![first], second);
        lemma_changed_by_push(store, Seq::empty(), first);
        assert(Seq::<ChangeView>::empty().push(first) =~= seq![first]);
        assert(seq![first].push(second) =~= seq![first, second]);
        assert(seq![first, second].push(third) =~= changes);
    }
    let row = second->row;
    lemma_put_dirty_in_order(store.dirty, row);
    law_cache_lookup(store.cache, entry, object_id, generation);
    assert forall|id: u64| is_flagged(all.cache, id, #[trigger] dirty_at(all.dirty, id)) by {
        law_dirty_lookup(saved.dirty, row, id);
        assert(is_flagged(saved.cache, id, dirty_at(saved.dirty, id)));
    }
    lemma_marked_rows_apart(saved, all, row);
    assert forall|i: int, id: u64, g: u64|
        0 <= i < all.cache.len() implies #[trigger] entry_apart(
            all.dirty,
            all.cache_dir,
            all.cache[i],
            id,
            g,
        ) by {
        law_dirty_lookup(saved.dirty, row, id);
        assert(entry_apart(saved.dirty, saved.cache_dir, saved.cache[i], id, g));
        assert(entry_apart(saved.dirty, saved.cache_dir, saved.cache[i], object_id, generation));
    }
}

proof fn lemma_write_on_clean(device: DeviceView, cursor: int, input: Seq<u8>, at: int)
    ensures
        outcome_clean(device.store.dirty, write_on(device, cursor, input, at)),
{
    lemma_object_started_clean(device, crate::device::object_at(device, cursor));
}

proof fn lemma_step_kept(device: DeviceView, op: OpView, reply: ReplyView, now: Seq<char>)
    requires
        kept(device.store),
        well_formed_manifest(device.manifest),
        op_clean(device.store.dirty, op),
    ensures
        ({
            let step = resumed(device, op, reply, now);
            &&& kept(step.device.store)
            &&& well_formed_manifest(step.device.manifest)
            &&& outcome_clean(step.device.store.dirty, step.outcome)
        }),
{
    match op {
        OpView::Read { cursor, remaining, out, stage } => {
            lemma_read_step_kept(device, cursor, remaining, out, stage, reply, now);
        },
        OpView::Write { cursor, input, at, stage } => match stage {
            WriteStageView::Reading { stage } => {
                lemma_object_step_kept(device, stage, reply, now);
            },
            WriteStageView::Saving { generation, encoded } => {
                let span = crate::device::span_at(device, cursor, input.len() - at);
                let object_id = crate::device::object_at(device, cursor);
                let place = crate::device::place_at(device, cursor);
                lemma_written_kept(device, object_id, generation, encoded, place, span, now);
                let changes = written_changes(
                    device,
                    object_id,
                    generation,
                    encoded,
                    place,
                    span,
                    now,
                );
                let after = DeviceView { store: changed_by(device.store, changes), ..device };
                lemma_write_on_clean(after, cursor + span, input, at + span);
            },
        },
        OpView::Flush { rows, at, stage } => {
            lemma_flush_step_kept(device, rows, at, stage, reply, now);
        },
    }
}

proof fn lemma_flush_step_kept(
    device: DeviceView,
    rows: Seq<DirtyView>,
    at: int,
    stage: crate::device::FlushStageView,
    reply: ReplyView,
    now: Seq<char>,
)
    requires
        kept(device.store),
        well_formed_manifest(device.manifest),
    ensures
        ({
            let step = crate::device::flush_resumed(device, rows, at, stage, reply, now);
            &&& kept(step.device.store)
            &&& well_formed_manifest(step.device.manifest)
            &&& outcome_clean(step.device.store.dirty, step.outcome)
        }),
{
    lemma_entry_index(device.manifest.objects, rows[at].object_id);
    let store = device.store;
    let clear = changed(store, ChangeView::ClearDirtyAndWal);
    reveal(rows_apart);
    assert(cache_keys_distinct(clear.cache)) by {
        assert forall|i: int, j: int| 0 <= i < j < clear.cache.len() implies !is_file_of(
            #[trigger] clear.cache[i],
            (#[trigger] clear.cache[j]).object_id,
            clear.cache[j].generation,
        ) by {
            assert(!is_file_of(
                store.cache[i],
                store.cache[j].object_id,
                store.cache[j].generation,
            ));
        }
    }
    assert forall|i: int, id: u64, g: u64|
        0 <= i < clear.cache.len() implies #[trigger] entry_apart(
            clear.dirty,
            clear.cache_dir,
            clear.cache[i],
            id,
            g,
        ) by {
        assert(entry_apart(store.dirty, store.cache_dir, store.cache[i], id, g));
    }
    let step = crate::device::flush_resumed(device, rows, at, stage, reply, now);
    if step.outcome is Finished {
        let end = step.device.store;
        assert(end.cache =~= clear.cache);
        assert(end.dirty == clear.dirty);
        assert(end.cache_dir == clear.cache_dir);
        assert(entries_apart(clear.cache, clear.dirty, clear.cache_dir));
    }
}

proof fn lemma_leads_kept(
    step: StepView,
    world: World,
    events: Seq<Event>,
    last: StepView,
    after: World,
)
    requires
        kept(step.device.store),
        well_formed_manifest(step.device.manifest),
        outcome_clean(step.device.store.dirty, step.outcome),
        leads_to(step, world, events, last, after),
    ensures
        kept(last.device.store),
        well_formed_manifest(last.device.manifest),
    decreases events.len(),
{
    if events.len() > 0 {
        match step.outcome {
            OutcomeView::Wait { op, .. } => {
                let event = events[0];
                lemma_step_kept(step.device, op, event.reply, event.now);
                lemma_leads_kept(
                    resumed(step.device, op, event.reply, event.now),
                    event.world,
                    events.skip(1),
                    last,
                    after,
                );
            },
            _ => {},
        }
    }
}

/// What a device can be asked.
pub enum RequestView {
    Read { offset: nat, len: nat },
    Write { offset: nat, input: Seq<u8> },
    Flush,
}

/// The first step of a request.
pub open spec fn started(device: DeviceView, request: RequestView) -> StepView {
    match request {
        RequestView::Read { offset, len } => read_started(device, offset as int, len as int),
        RequestView::Write { offset, input } => write_started(device, offset as int, input),
        RequestView::Flush => flush_started(device),
    }
}

proof fn lemma_started_kept(device: DeviceView, request: RequestView)
    requires
        kept(device.store),
        well_formed_manifest(device.manifest),
    ensures
        kept(started(device, request).device.store),
        well_formed_manifest(started(device, request).device.manifest),
        outcome_clean(
            started(device, request).device.store.dirty,
            started(device, request).outcome,
        ),
{
    match request {
        RequestView::Read { offset, len } => {
            lemma_read_on_clean(device, offset as int, len as int, Seq::empty());
        },
        RequestView::Write { offset, input } => {
            lemma_write_on_clean(device, offset as int, input, 0);
        },
        RequestView::Flush => {},
    }
}

/// Every request keeps clean objects on the remote, and gives no dirty object a file with
/// other content.
proof fn lemma_request_keeps_places(
    device: DeviceView,
    world: World,
    request: RequestView,
    events: Seq<Event>,
    last: StepView,
    after: World,
)
    requires
        sound(device, world),
        leads_to(started(device, request), world, events, last, after),
    ensures
        own_files_agree(last.device, after),
        backed(last.device, after),
        last.device.map == device.map,
{
    match request {
        RequestView::Read { offset, len } => {
            law_read_returns_content(
                device,
                world,
                offset as int,
                len as int,
                events,
                last,
                after,
            );
        },
        RequestView::Write { offset, input } => {
            law_write_changes_its_bytes_only(
                device,
                world,
                offset as int,
                input,
                events,
                last,
                after,
            );
        },
        RequestView::Flush => {
            law_flush_makes_durable(device, world, events, last, after);
        },
    }
}

/// No request, whether it finishes, is refused or is still on its way, throws a device
/// into disorder.
pub proof fn law_requests_keep_order(
    device: DeviceView,
    world: World,
    request: RequestView,
    events: Seq<Event>,
    last: StepView,
    after: World,
)
    requires
        sound(device, world),
        leads_to(started(device, request), world, events, last, after),
    ensures
        sound(last.device, after),
        last.device.map == device.map,
{
    lemma_request_keeps_places(device, world, request, events, last, after);
    lemma_started_kept(device, request);
    lemma_leads_kept(started(device, request), world, events, last, after);
}

/// Messages are only added.
proof fn lemma_messages_stay(
    step: StepView,
    world: World,
    events: Seq<Event>,
    last: StepView,
    after: World,
)
    requires
        leads_to(step, world, events, last, after),
    ensures
        includes(after.messages, world.messages),
    decreases events.len(),
{
    if events.len() > 0 {
        match step.outcome {
            OutcomeView::Wait { op, action } => {
                let event = events[0];
                assert(answered(world, action, event.reply, event.world));
                lemma_messages_stay(
                    resumed(step.device, op, event.reply, event.now),
                    event.world,
                    events.skip(1),
                    last,
                    after,
                );
                assert forall|id: i32| #[trigger] world.messages.dom().contains(id) implies
                    after.messages.dom().contains(id) && after.messages[id]
                    == world.messages[id] by {
                    assert(event.world.messages.dom().contains(id));
                }
            },
            _ => {},
        }
    }
}

/// No request, whether it finishes, is refused or is still on its way, puts a message that is
/// in use among the garbage, so that deleting the garbage takes no content away.
pub proof fn law_requests_leave_no_live_garbage(
    device: DeviceView,
    world: World,
    request: RequestView,
    events: Seq<Event>,
    last: StepView,
    after: World,
)
    requires
        sound(device, world),
        messages_apart(device.manifest, world.messages),
        leads_to(started(device, request), world, events, last, after),
    ensures
        garbage_is_dead(last.device.manifest),
        messages_apart(last.device.manifest, after.messages),
        forall|id: u64| #[trigger]
            object_content(last.device, collected(after, last.device.manifest), id)
                == object_content(last.device, after, id),
{
    lemma_messages_stay(started(device, request), world, events, last, after);
    match request {
        RequestView::Read { offset, len } => {
            law_read_returns_content(
                device,
                world,
                offset as int,
                len as int,
                events,
                last,
                after,
            );
            lemma_more_messages_apart(device.manifest, world.messages, after.messages);
        },
        RequestView::Write { offset, input } => {
            law_write_changes_its_bytes_only(
                device,
                world,
                offset as int,
                input,
                events,
                last,
                after,
            );
            lemma_more_messages_apart(device.manifest, world.messages, after.messages);
        },
        RequestView::Flush => {
            law_flush_leaves_no_live_garbage(device, world, events, last, after);
        },
    }
    law_collecting_garbage_keeps_content(last.device, after);
}

/// A device that was just formatted holds zeros, is in order, and has no garbage.
pub proof fn law_formatted_device_holds_zeros(
    device: DeviceView,
    world: World,
    device_uuid: u128,
    object_count: u64,
    object_id: u64,
)
    requires
        object_size(device) > 0,
        device.store.dirty.len() == 0,
        device.store.cache.len() == 0,
        device.manifest == empty_manifest(device_uuid, device.map.object_size, object_count),
    ensures
        sound(device, world),
        messages_apart(device.manifest, world.messages),
        device.manifest.garbage.len() == 0,
        object_content(device, world, object_id) == if object_id < object_count {
            Some(zeros(object_size(device)))
        } else {
            None
        },
{
    assert forall|id: u64|
        (#[trigger] object_content(device, world, id)) == object_content(
            device,
            without_files(world),
            id,
        ) && object_content(device, world, id) == if id < object_count {
            Some(zeros(object_size(device)))
        } else {
            None
        } by {
        law_numbered_lookup(device.manifest.objects, id);
    }
    reveal(own_files_agree);
    reveal(rows_apart);
}

/// A device that starts from a manifest alone, without a cache, is in order.
pub proof fn law_recovered_device_is_in_order(device: DeviceView, world: World)
    requires
        object_size(device) > 0,
        well_formed_manifest(device.manifest),
        device.store.dirty.len() == 0,
        device.store.cache.len() == 0,
        world.files == Map::<Seq<char>, Seq<u8>>::empty(),
    ensures
        sound(device, world),
{
    assert(without_files(world) == world);
    reveal(own_files_agree);
    reveal(rows_apart);
}

/// A new machine regains the device from the channel: a superblock that leads to the
/// manifest of a finished flush is never refused as long as the channel answers, and a
/// device that starts with the manifest that it leads to, without a cache, holds all that
/// the flushed device held, and is in order.
pub proof fn law_new_machine_regains_the_device(
    device: DeviceView,
    world: World,
    events: Seq<Event>,
    last: StepView,
    after: World,
    codec: Codec,
    committed: Channel,
    superblock: SuperblockView,
    later: Channel,
    chat_id: i64,
    replies: Seq<FetchReplyView>,
    end: FetchStepView,
    fresh: DeviceView,
)
    requires
        sound(device, world),
        leads_to(flush_started(device), world, events, last, after),
        last.outcome is Finished,
        gives_back(codec, last.device.manifest),
        names_manifest(codec, last.device.manifest, device.map, committed, superblock),
        includes(later, committed),
        includes(later, after.messages),
        fetch_leads_to(codec, later, fetch_started(superblock, chat_id), replies, end),
        fresh.map == device.map,
        fresh.store.dirty.len() == 0,
        fresh.store.cache.len() == 0,
    ensures
        !(end is Refused),
        end matches FetchStepView::Found { manifest } ==> fresh.manifest == manifest ==> {
            let bare = World { files: Map::empty(), messages: later };
            keeps_content(device, world, fresh, bare) && sound(fresh, bare)
        },
{
    law_requests_keep_order(device, world, RequestView::Flush, events, last, after);
    law_committed_manifest_is_recovered(
        codec,
        last.device.manifest,
        device.map,
        committed,
        superblock,
        later,
        chat_id,
        replies,
        end,
    );
    let bare = World { files: Map::empty(), messages: later };
    match end {
        FetchStepView::Found { manifest } => {
            if fresh.manifest == manifest {
                law_recovered_device_is_in_order(fresh, bare);
                law_fresh_machine_holds_the_content(
                    device,
                    world,
                    events,
                    last,
                    after,
                    fresh,
                    bare,
                );
            }
        },
        _ => {},
    }
}

/// The way from a flush to a new machine, in the channel alone: where the manifest of a
/// finished flush was committed and the commit finished, the superblock that it published
/// leads a new machine to that manifest, and a device that starts with it, without a cache,
/// holds all that the flushed device held, and is in order.
pub proof fn law_committed_flush_is_regained(
    device: DeviceView,
    world: World,
    events: Seq<Event>,
    last: StepView,
    after: World,
    codec: Codec,
    channel: Channel,
    commits: Seq<CommitEvent>,
    committed: CommitStepView,
    committed_channel: Channel,
    later: Channel,
    chat_id: i64,
    replies: Seq<FetchReplyView>,
    end: FetchStepView,
    fresh: DeviceView,
)
    requires
        sound(device, world),
        leads_to(flush_started(device), world, events, last, after),
        last.outcome is Finished,
        gives_back(codec, last.device.manifest),
        commit_leads_to(
            codec,
            last.device.manifest,
            device.map,
            commit_started(last.device.manifest),
            channel,
            commits,
            committed,
            committed_channel,
        ),
        committed is Finished,
        includes(later, committed_channel),
        includes(later, after.messages),
        published_superblock(
            last.device.manifest,
            device.map,
            commit_started(last.device.manifest),
            commits,
        ) matches Some(superblock) ==> fetch_leads_to(
            codec,
            later,
            fetch_started(superblock, chat_id),
            replies,
            end,
        ),
        fresh.map == device.map,
        fresh.store.dirty.len() == 0,
        fresh.store.cache.len() == 0,
    ensures
        !(end is Refused),
        replies.len() == fetch_rounds(last.device.manifest) ==> end == (FetchStepView::Found {
            manifest: last.device.manifest,
        }),
        end matches FetchStepView::Found { manifest } ==> fresh.manifest == manifest ==> {
            let bare = World { files: Map::empty(), messages: later };
            keeps_content(device, world, fresh, bare) && sound(fresh, bare)
        },
{
    let manifest = last.device.manifest;
    let first = commit_started(manifest);
    law_requests_keep_order(device, world, RequestView::Flush, events, last, after);
    law_published_superblock_leads_to_the_manifest(
        codec,
        manifest,
        device.map,
        channel,
        commits,
        committed,
        committed_channel,
        later,
        chat_id,
        replies,
        end,
    );
    let none = Set::<i32>::empty();
    assert(committed_channel.remove_keys(none) =~= committed_channel);
    lemma_commit_started(codec, manifest, device.map, channel.remove_keys(none));
    let at = lemma_published(
        codec,
        manifest,
        device.map,
        first,
        channel,
        commits,
        committed,
        committed_channel,
        none,
    );
    assert forall|id: i32| #[trigger] at.dom().contains(id) implies later.dom().contains(id)
        && later[id] == at[id] by {
        assert(committed_channel.dom().contains(id));
    }
    law_new_machine_regains_the_device(
        device,
        world,
        events,
        last,
        after,
        codec,
        at,
        published_superblock(manifest, device.map, first, commits)->0,
        later,
        chat_id,
        replies,
        end,
        fresh,
    );
}

/// Collecting garbage leaves the way to a new machine open: where the manifest of a finished
/// flush was committed, beginning in a channel that held the messages of before the flush, and
/// the messages of that manifest's garbage were deleted since, the superblock that the commit
/// published still leads to the manifest, and a device that starts with it, without a cache,
/// holds all that the flushed device held, and is in order.
pub proof fn law_collected_flush_is_regained(
    device: DeviceView,
    world: World,
    events: Seq<Event>,
    last: StepView,
    after: World,
    codec: Codec,
    channel: Channel,
    commits: Seq<CommitEvent>,
    committed: CommitStepView,
    committed_channel: Channel,
    later: Channel,
    chat_id: i64,
    replies: Seq<FetchReplyView>,
    end: FetchStepView,
    fresh: DeviceView,
)
    requires
        sound(device, world),
        messages_apart(device.manifest, world.messages),
        leads_to(flush_started(device), world, events, last, after),
        last.outcome is Finished,
        gives_back(codec, last.device.manifest),
        commit_leads_to(
            codec,
            last.device.manifest,
            device.map,
            commit_started(last.device.manifest),
            channel,
            commits,
            committed,
            committed_channel,
        ),
        committed is Finished,
        includes(channel, world.messages),
        includes(later, committed_channel.remove_keys(garbage_ids(last.device.manifest))),
        includes(later, after.messages.remove_keys(garbage_ids(last.device.manifest))),
        published_superblock(
            last.device.manifest,
            device.map,
            commit_started(last.device.manifest),
            commits,
        ) matches Some(superblock) ==> fetch_leads_to(
            codec,
            later,
            fetch_started(superblock, chat_id),
            replies,
            end,
        ),
        fresh.map == device.map,
        fresh.store.dirty.len() == 0,
        fresh.store.cache.len() == 0,
    ensures
        !(end is Refused),
        replies.len() == fetch_rounds(last.device.manifest) ==> end == (FetchStepView::Found {
            manifest: last.device.manifest,
        }),
        end matches FetchStepView::Found { manifest } ==> fresh.manifest == manifest ==> {
            let bare = World { files: Map::empty(), messages: later };
            keeps_content(device, world, fresh, bare) && sound(fresh, bare)
        },
{
    let manifest = last.device.manifest;
    law_requests_keep_order(device, world, RequestView::Flush, events, last, after);
    law_flush_makes_durable(device, world, events, last, after);
    law_flush_leaves_no_live_garbage(device, world, events, last, after);
    lemma_garbage_was_there(device, world, last.device, after);
    assert forall|id: i32| #[trigger] garbage_ids(manifest).contains(id) implies
        channel.dom().contains(id) by {
        assert(world.messages.dom().contains(id));
    }
    law_old_messages_are_not_needed(
        codec,
        manifest,
        device.map,
        channel,
        commits,
        committed,
        committed_channel,
        garbage_ids(manifest),
        later,
        chat_id,
        replies,
        end,
    );
    let bare = World { files: Map::empty(), messages: later };
    if fresh.manifest == manifest {
        law_recovered_device_is_in_order(fresh, bare);
        lemma_fresh_after_collection(device, world, last.device, after, fresh, bare);
    }
}

/// A device without a cache holds what a flushed one holds, though the garbage is gone.
proof fn lemma_fresh_after_collection(
    device: DeviceView,
    world: World,
    flushed: DeviceView,
    after: World,
    fresh: DeviceView,
    bare: World,
)
    requires
        keeps_content(device, world, flushed, after),
        flushed.store.dirty.len() == 0,
        backed(flushed, after),
        garbage_is_dead(flushed.manifest),
        fresh.map == flushed.map,
        fresh.manifest == flushed.manifest,
        fresh.store.dirty.len() == 0,
        bare.files == Map::<Seq<char>, Seq<u8>>::empty(),
        includes(bare.messages, after.messages.remove_keys(garbage_ids(flushed.manifest))),
    ensures
        keeps_content(device, world, fresh, bare),
{
    let remote = without_files(after);
    let kept = collected(remote, flushed.manifest);
    law_collecting_garbage_keeps_content(flushed, remote);
    assert(grown(kept, bare));
    lemma_grown_keeps_content(fresh, kept, bare);
    assert forall|id: u64| (#[trigger] object_content(device, world, id)) is Some implies
        object_content(fresh, bare, id) == object_content(device, world, id) by {
        assert(object_content(flushed, after, id) == object_content(device, world, id));
        assert(dirty_at(flushed.store.dirty, id) is None);
        assert(object_content(flushed, remote, id) == object_content(flushed, after, id));
        assert(object_content(flushed, kept, id) == object_content(flushed, remote, id));
        assert(object_content(fresh, kept, id) == object_content(flushed, kept, id));
    }
}

/// One of the entries names the file.
pub open spec fn named_by(entries: Seq<CacheView>, path: Seq<char>) -> bool {
    exists|k: int| 0 <= k < entries.len() && (#[trigger] entries[k]).cache_path == path
}

/// The world without the files that the entries name.
pub open spec fn without_files_of(world: World, entries: Seq<CacheView>) -> World {
    World {
        files: world.files.remove_keys(Set::new(|path: Seq<char>| named_by(entries, path))),
        ..world
    }
}

proof fn lemma_removals_kept(store: StoreView, gone: Seq<CacheView>)
    requires
        kept(store),
        forall|k: int|
            0 <= k < gone.len() ==> (dirty_at(store.dirty, (#[trigger] gone[k]).object_id) matches
                Some(row) ==> row.generation != gone[k].generation),
    ensures
        kept(changed_by(store, removals(gone))),
        changed_by(store, removals(gone)) == (StoreView {
            cache: changed_by(store, removals(gone)).cache,
            ..store
        }),
    decreases gone.len(),
{
    if gone.len() > 0 {
        let head = gone.drop_last();
        let entry = gone.last();
        assert forall|k: int| 0 <= k < head.len() implies (dirty_at(
            store.dirty,
            (#[trigger] head[k]).object_id,
        ) matches Some(row) ==> row.generation != head[k].generation) by {
            assert(head[k] == gone[k]);
        }
        lemma_removals_kept(store, head);
        lemma_changed_by_push(store, removals(head), removal(entry));
        assert(removals(gone) =~= removals(head).push(removal(entry)));
        let before = changed_by(store, removals(head));
        let after = changed_by(store, removals(gone));
        lemma_cache_without(before.cache, entry.object_id, entry.generation);
        lemma_without_apart(before, entry.object_id, entry.generation);
        assert(entry == gone[gone.len() - 1]);
        assert forall|id: u64|
            is_flagged(after.cache, id, #[trigger] dirty_at(after.dirty, id)) by {
            assert(is_flagged(before.cache, id, dirty_at(before.dirty, id)));
            if dirty_at(before.dirty, id) is Some {
                let row = dirty_at(before.dirty, id)->0;
                lemma_cache_at_other(
                    before.cache,
                    entry.object_id,
                    entry.generation,
                    id,
                    row.generation,
                );
            }
        }
    } else {
        assert(removals(gone) =~= Seq::empty());
    }
}

/// What is found for a file is one of the entries.
proof fn lemma_cache_found(rows: Seq<CacheView>, object_id: u64, generation: u64) -> (k: int)
    requires
        cache_at(rows, object_id, generation) is Some,
    ensures
        0 <= k < rows.len(),
        cache_at(rows, object_id, generation) == Some(rows[k]),
        is_file_of(rows[k], object_id, generation),
    decreases rows.len(),
{
    if is_file_of(rows.last(), object_id, generation) {
        rows.len() - 1
    } else {
        lemma_cache_found(rows.drop_last(), object_id, generation)
    }
}

/// Eviction takes no cache file of a dirty object.
proof fn lemma_victims_are_not_dirty(store: StoreView, max_entries: int, k: int, object_id: u64)
    requires
        kept(store),
        max_entries >= 0,
        0 <= k < victims(store.cache, max_entries).len(),
    ensures
        ({
            let entry = victims(store.cache, max_entries)[k];
            dirty_at(store.dirty, object_id) matches Some(row) ==> {
                &&& object_id != entry.object_id || row.generation != entry.generation
                &&& entry.cache_path != row.cache_path
            }
        }),
{
    let rows = store.cache;
    let gone = victims(rows, max_entries);
    law_eviction_spares_dirty_and_recent(store, max_entries);
    let entry = gone[k];
    assert(rows.contains(entry) && !entry.dirty);
    let p = choose|p: int| 0 <= p < rows.len() && rows[p] == entry;
    assert(entry_apart(store.dirty, store.cache_dir, rows[p], object_id, 0));
    match dirty_at(store.dirty, object_id) {
        Some(row) => {
            if object_id == entry.object_id && row.generation == entry.generation {
                let q = lemma_cache_found(rows, object_id, row.generation);
                assert(rows[q].dirty);
                if p < q {
                    assert(!is_file_of(rows[p], rows[q].object_id, rows[q].generation));
                }
                if q < p {
                    assert(!is_file_of(rows[q], rows[p].object_id, rows[p].generation));
                }
            }
        },
        None => {},
    }
}

/// Eviction loses nothing: with the files of the evicted entries gone, the device holds
/// what it held before, the same objects are dirty, and it is in order.
pub proof fn law_eviction_keeps_content(device: DeviceView, world: World, max_entries: int)
    requires
        sound(device, world),
        max_entries >= 0,
    ensures
        ({
            let gone = victims(device.store.cache, max_entries);
            let other = DeviceView {
                store: changed_by(device.store, removals(gone)),
                ..device
            };
            let after = without_files_of(world, gone);
            &&& keeps_content(device, world, other, after)
            &&& other.store.dirty == device.store.dirty
            &&& sound(other, after)
        }),
{
    let store = device.store;
    let gone = victims(store.cache, max_entries);
    let other = DeviceView { store: changed_by(store, removals(gone)), ..device };
    let after = without_files_of(world, gone);
    assert forall|k: int| 0 <= k < gone.len() implies (dirty_at(
        store.dirty,
        (#[trigger] gone[k]).object_id,
    ) matches Some(row) ==> row.generation != gone[k].generation) by {
        lemma_victims_are_not_dirty(store, max_entries, k, gone[k].object_id);
    }
    lemma_removals_kept(store, gone);
    assert forall|id: u64| #[trigger] dirty_at(store.dirty, id) is Some implies !named_by(
        gone,
        dirty_at(store.dirty, id)->0.cache_path,
    ) by {
        let row = dirty_at(store.dirty, id)->0;
        if named_by(gone, row.cache_path) {
            let k = choose|k: int| 0 <= k < gone.len() && (#[trigger] gone[k]).cache_path
                == row.cache_path;
            lemma_victims_are_not_dirty(store, max_entries, k, id);
        }
    }
    assert(without_files(after) == without_files(world));
    assert forall|id: u64, w: World| #[trigger]
        object_content(other, w, id) == object_content(device, w, id) by {}
    assert forall|id: u64| #[trigger]
        object_content(device, after, id) == object_content(device, world, id) || (dirty_at(
            store.dirty,
            id,
        ) is None && object_content(device, after, id) == object_content(
            device,
            without_files(world),
            id,
        )) by {
        match dirty_at(store.dirty, id) {
            Some(row) => {
                assert(!named_by(gone, row.cache_path));
            },
            None => match entry_index(device.manifest.objects, id) {
                None => {},
                Some(i) => match stored_place(device.manifest.objects[i]) {
                    Ok(object) => {
                        let path = path_of(device, object);
                        assert(after.files.dom().contains(path) ==> after.files[path]
                            == world.files[path]);
                    },
                    Err(_) => {},
                },
            },
        }
    }
    reveal(own_files_agree);
    assert forall|id: u64| #[trigger] own_file_agrees(other, after, id) by {
        assert(own_file_agrees(device, world, id));
        assert(object_content(other, after, id) == object_content(device, after, id));
    }
}

} // verus!
