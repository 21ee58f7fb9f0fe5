//! What the device promises of flushes.
use vstd::prelude::*;

use crate::backend::RemoteObjectRefView;
use crate::cache::{
    cleaned, dirty_at, dirty_in_order, object_path, row_key, stored_refs, DirtyView, StoreView,
};
use crate::device::{
    flush_on, flush_resumed, flush_started, manifest_with, newest, resumed, stored_place,
    ActionView, DeviceError, DeviceView, FlushStageView, OpView, OutcomeView, ReplyView, StepView,
    StoredView,
};
use crate::device_laws::{
    answered, backed, checked_object, grown, keeps_content, leads_to, lemma_grown_keeps_content,
    message_at, object_content, own_file_agrees, own_files_agree,
    path_of, without_files, Event, World,
};
use crate::manifest::{entry_index, lemma_entry_index, ManifestObjectView, ManifestView};

verus! {

/// Both manifests list the same numbers in the same places.
pub open spec fn same_numbers(left: Seq<ManifestObjectView>, right: Seq<ManifestObjectView>) -> bool {
    &&& left.len() == right.len()
    &&& forall|i: int|
        0 <= i < left.len() ==> (#[trigger] left[i]).object_id == (#[trigger] right[i]).object_id
}

pub proof fn lemma_same_numbers(
    left: Seq<ManifestObjectView>,
    right: Seq<ManifestObjectView>,
    object_id: u64,
)
    requires
        same_numbers(left, right),
    ensures
        entry_index(left, object_id) == entry_index(right, object_id),
    decreases left.len(),
{
    if left.len() > 0 {
        let (a, b) = (left.drop_last(), right.drop_last());
        assert forall|i: int| 0 <= i < a.len() implies (#[trigger] a[i]).object_id == (
        #[trigger] b[i]).object_id by {
            assert(left[i].object_id == right[i].object_id);
        }
        lemma_same_numbers(a, b, object_id);
        assert(left[left.len() - 1].object_id == right[right.len() - 1].object_id);
    }
}

/// A dirty object that can be read from its cache file.
pub open spec fn row_readable(device: DeviceView, world: World, row: DirtyView) -> bool {
    world.files.dom().contains(row.cache_path) && checked_object(
        device.map,
        world.files[row.cache_path],
        row.sha256,
        row.object_id,
        row.generation,
    ) is Some
}

/// The manifest names a remote copy of the dirty object, and that copy is there.
pub open spec fn row_uploaded(device: DeviceView, world: World, row: DirtyView) -> bool {
    &&& row_readable(device, world, row)
    &&& entry_index(device.manifest.objects, row.object_id) matches Some(i) && {
        let entry = device.manifest.objects[i];
        &&& !entry.zero
        &&& entry.generation == row.generation
        &&& entry.sha256 == Some(row.sha256)
        &&& entry.remote matches Some(remote) && message_at(world, remote.message_id) == Some(
            world.files[row.cache_path],
        )
    }
}

/// The remote objects that the manifest's entries of the dirty objects name, in the order of
/// the dirty objects.
pub open spec fn replaced_remotes(
    objects: Seq<ManifestObjectView>,
    rows: Seq<DirtyView>,
) -> Seq<RemoteObjectRefView>
    decreases rows.len(),
{
    if rows.len() == 0 {
        Seq::empty()
    } else {
        let rest = replaced_remotes(objects, rows.drop_last());
        match entry_index(objects, rows.last().object_id) {
            Some(i) => match objects[i].remote {
                Some(remote) => rest.push(remote),
                None => rest,
            },
            None => rest,
        }
    }
}

/// The `i`-th entry of a manifest after dirty objects were uploaded: the entry of one of them
/// has its generation and its checksum and names its remote copy, and every other entry is as
/// it was.
pub open spec fn entry_uploaded(
    objects: Seq<ManifestObjectView>,
    rows: Seq<DirtyView>,
    i: int,
    entry: ManifestObjectView,
) -> bool {
    let before = objects[i];
    match dirty_at(rows, before.object_id) {
        Some(row) => if entry_index(objects, before.object_id) == Some(i) {
            &&& entry.remote is Some
            &&& entry == (ManifestObjectView {
                generation: row.generation,
                remote: entry.remote,
                sha256: Some(row.sha256),
                zero: false,
                ..before
            })
        } else {
            entry == before
        },
        None => entry == before,
    }
}

/// The manifest after a flush uploaded the dirty objects `rows`: it has the generation, its
/// garbage is that of before and behind it the remote objects that were replaced, the entries
/// of the uploaded objects are new, and all else is as it was.
#[verifier::opaque]
pub open spec fn manifest_flushed(
    before: ManifestView,
    rows: Seq<DirtyView>,
    generation: u64,
    after: ManifestView,
) -> bool {
    &&& after == (ManifestView {
        generation,
        objects: after.objects,
        garbage: before.garbage + replaced_remotes(before.objects, rows),
        ..before
    })
    &&& after.objects.len() == before.objects.len()
    &&& forall|i: int|
        0 <= i < before.objects.len() ==> entry_uploaded(
            before.objects,
            rows,
            i,
            #[trigger] after.objects[i],
        )
}

/// The index after a flush that finished: nothing is dirty, no range is recorded as written,
/// every cache entry is clean, and the manifest is the encoded one with its references.
pub open spec fn flushed_store(
    store: StoreView,
    manifest: ManifestView,
    encoded: Seq<u8>,
) -> StoreView {
    StoreView {
        cache_dir: store.cache_dir,
        dirty: Seq::empty(),
        wal: Seq::empty(),
        cache: Seq::new(store.cache.len(), |i: int| cleaned(store.cache[i])),
        refs: stored_refs(manifest.objects),
        manifest: Some(encoded),
    }
}

/// The device in the middle of a flush, begun with `device` in `world`: the first
/// `count` dirty objects are uploaded, and all else is as it was.
pub open spec fn flushing(
    device: DeviceView,
    world: World,
    other: DeviceView,
    after: World,
    count: int,
) -> bool {
    let rows = device.store.dirty;
    &&& other.map == device.map
    &&& other.store == device.store
    &&& manifest_flushed(device.manifest, rows.take(count), newest(rows), other.manifest)
    &&& same_numbers(device.manifest.objects, other.manifest.objects)
    &&& forall|i: int|
        0 <= i < device.manifest.objects.len() && dirty_at(
            rows,
            (#[trigger] device.manifest.objects[i]).object_id,
        ) is None ==> other.manifest.objects[i] == device.manifest.objects[i]
    &&& forall|k: int| 0 <= k < count ==> row_uploaded(other, after, #[trigger] rows[k])
    &&& grown(world, after)
}

/// A dirty object is found under its number.
pub proof fn lemma_dirty_at(rows: Seq<DirtyView>, k: int)
    requires
        dirty_in_order(rows),
        0 <= k < rows.len(),
    ensures
        dirty_at(rows, rows[k].object_id) == Some(rows[k]),
    decreases rows.len(),
{
    let head = rows.drop_last();
    if k < rows.len() - 1 {
        assert(row_key(rows[k].object_id) < row_key(rows[rows.len() - 1].object_id));
        assert forall|i: int, j: int| 0 <= i < j < head.len() implies row_key(
            #[trigger] head[i].object_id,
        ) < row_key(#[trigger] head[j].object_id) by {
            assert(row_key(rows[i].object_id) < row_key(rows[j].object_id));
        }
        lemma_dirty_at(head, k);
    }
}

/// What is found under a number is one of the dirty objects.
pub proof fn lemma_dirty_found(rows: Seq<DirtyView>, object_id: u64) -> (k: int)
    requires
        dirty_at(rows, object_id) is Some,
    ensures
        0 <= k < rows.len(),
        rows[k].object_id == object_id,
        dirty_at(rows, object_id) == Some(rows[k]),
    decreases rows.len(),
{
    if rows.last().object_id == object_id {
        rows.len() - 1
    } else {
        lemma_dirty_found(rows.drop_last(), object_id)
    }
}

/// In the middle of a flush the device holds what it held before, and what could be read
/// without the cache still can.
proof fn lemma_flushing_keeps_content(
    device: DeviceView,
    world: World,
    other: DeviceView,
    after: World,
    count: int,
)
    requires
        flushing(device, world, other, after, count),
    ensures
        keeps_content(device, world, other, after),
        backed(device, world) ==> backed(other, after),
        own_files_agree(device, world) ==> own_files_agree(other, after),
{
    lemma_grown_keeps_content(device, world, after);
    assert forall|id: u64| (#[trigger] object_content(device, world, id)) is Some implies
        object_content(other, after, id) == object_content(device, world, id) by {
        lemma_same_numbers(device.manifest.objects, other.manifest.objects, id);
        lemma_entry_index(device.manifest.objects, id);
        if dirty_at(device.store.dirty, id) is None {
            let i = entry_index(device.manifest.objects, id)->0;
            assert(device.manifest.objects[i].object_id == id);
        }
    }
    assert forall|id: u64, w: World|
        dirty_at(device.store.dirty, id) is None implies #[trigger] object_content(other, w, id)
        == object_content(device, w, id) by {
        lemma_same_numbers(device.manifest.objects, other.manifest.objects, id);
        lemma_entry_index(device.manifest.objects, id);
        if entry_index(device.manifest.objects, id) is Some {
            let i = entry_index(device.manifest.objects, id)->0;
            assert(device.manifest.objects[i].object_id == id);
        }
    }
    reveal(own_files_agree);
    if own_files_agree(device, world) {
        assert forall|id: u64| #[trigger] own_file_agrees(other, after, id) by {
            assert(own_file_agrees(device, world, id));
        }
    }
}

/// What holds of a flush begun with `device` in `world`, when it has come to `step` in
/// `after`.
pub open spec fn flush_state(
    device: DeviceView,
    world: World,
    step: StepView,
    after: World,
) -> bool {
    let rows = device.store.dirty;
    let d = step.device;
    match step.outcome {
        OutcomeView::Refused { .. } => exists|count: int|
            0 <= count <= rows.len() && #[trigger] flushing(device, world, d, after, count),
        OutcomeView::Finished { bytes } => {
            &&& bytes.len() == 0
            &&& flushed(device, world, d, after)
        },
        OutcomeView::Wait { op, action } => op matches OpView::Flush {
            rows: queue,
            at,
            stage,
        } && {
            &&& queue == rows
            &&& rows.len() > 0
            &&& 0 <= at <= rows.len()
            &&& flushing(device, world, d, after, at)
            &&& match stage {
                FlushStageView::Reading => {
                    &&& at < rows.len()
                    &&& action == (ActionView::ReadFile { path: rows[at].cache_path })
                },
                FlushStageView::Sending { sha256 } => {
                    &&& at < rows.len()
                    &&& sha256 == rows[at].sha256
                    &&& row_readable(d, after, rows[at])
                    &&& action == (ActionView::Send {
                        object_id: rows[at].object_id,
                        generation: rows[at].generation,
                        payload: after.files[rows[at].cache_path],
                        sha256: rows[at].sha256,
                    })
                },
                FlushStageView::Committing => {
                    &&& at == rows.len()
                    &&& action == ActionView::Commit
                },
                FlushStageView::Encoding => {
                    &&& at == rows.len()
                    &&& action == ActionView::EncodeManifest
                },
            }
        },
    }
}

/// What a flush that finished leaves: nothing is dirty, the manifest names the new remote copy
/// of every object that was, the device holds what it held before, and every object that was
/// dirty can be read from the remote messages alone.
pub open spec fn flushed(
    device: DeviceView,
    world: World,
    other: DeviceView,
    after: World,
) -> bool {
    &&& other.map == device.map
    &&& other.store.dirty.len() == 0
    &&& device.store.dirty.len() == 0 ==> other == device && after == world
    &&& device.store.dirty.len() > 0 ==> manifest_flushed(
        device.manifest,
        device.store.dirty,
        newest(device.store.dirty),
        other.manifest,
    )
    &&& after.files == world.files
    &&& keeps_content(device, world, other, after)
    &&& forall|id: u64|
        (#[trigger] dirty_at(device.store.dirty, id)) is Some ==> object_content(
            device,
            world,
            id,
        ) is Some && object_content(other, without_files(after), id) == object_content(
            device,
            world,
            id,
        )
    &&& backed(device, world) ==> backed(other, after)
    &&& own_files_agree(device, world) ==> own_files_agree(other, after)
}

proof fn lemma_flush_on(device: DeviceView, world: World, d: DeviceView, after: World, at: int)
    requires
        device.store.dirty.len() > 0,
        0 <= at <= device.store.dirty.len(),
        flushing(device, world, d, after, at),
    ensures
        flush_state(
            device,
            world,
            (StepView {
                device: d,
                changes: Seq::empty(),
                outcome: flush_on(d, device.store.dirty, at),
            }),
            after,
        ),
{
}

/// One more object is uploaded.
proof fn lemma_upload(
    device: DeviceView,
    world: World,
    d: DeviceView,
    before: World,
    at: int,
    i: int,
    remote: RemoteObjectRefView,
    after: World,
    metrics: crate::device::DeviceMetrics,
)
    requires
        dirty_in_order(device.store.dirty),
        0 <= at < device.store.dirty.len(),
        flushing(device, world, d, before, at),
        row_readable(d, before, device.store.dirty[at]),
        entry_index(d.manifest.objects, device.store.dirty[at].object_id) == Some(i),
        !before.messages.dom().contains(remote.message_id),
        after == (World {
            messages: before.messages.insert(
                remote.message_id,
                before.files[device.store.dirty[at].cache_path],
            ),
            ..before
        }),
    ensures
        ({
            let row = device.store.dirty[at];
            flushing(
                device,
                world,
                (DeviceView {
                    manifest: manifest_with(d.manifest, i, row, remote, row.sha256),
                    metrics,
                    ..d
                }),
                after,
                at + 1,
            )
        }),
{
    let rows = device.store.dirty;
    let row = rows[at];
    let manifest = manifest_with(d.manifest, i, row, remote, row.sha256);
    let other = DeviceView { manifest, metrics, ..d };
    lemma_entry_index(d.manifest.objects, row.object_id);
    lemma_dirty_at(rows, at);
    assert(same_numbers(device.manifest.objects, other.manifest.objects)) by {
        assert forall|k: int| 0 <= k < device.manifest.objects.len() implies (
        #[trigger] device.manifest.objects[k]).object_id == (
        #[trigger] other.manifest.objects[k]).object_id by {
            assert(device.manifest.objects[k].object_id == d.manifest.objects[k].object_id);
        }
    }
    assert(same_numbers(d.manifest.objects, other.manifest.objects));
    assert forall|k: int|
        0 <= k < device.manifest.objects.len() && dirty_at(
            rows,
            (#[trigger] device.manifest.objects[k]).object_id,
        ) is None implies other.manifest.objects[k] == device.manifest.objects[k] by {
        assert(device.manifest.objects[k].object_id == d.manifest.objects[k].object_id);
        assert(k != i);
    }
    assert forall|k: int| 0 <= k < at + 1 implies row_uploaded(other, after, #[trigger] rows[k]) by {
        lemma_same_numbers(d.manifest.objects, other.manifest.objects, rows[k].object_id);
        if k < at {
            assert(row_uploaded(d, before, rows[k]));
            assert(row_key(rows[k].object_id) < row_key(rows[at].object_id));
            lemma_entry_index(d.manifest.objects, rows[k].object_id);
            let j = entry_index(d.manifest.objects, rows[k].object_id)->0;
            assert(j != i);
        }
    }
    assert(grown(world, after));
    lemma_manifest_upload(device.manifest, rows, at, d.manifest, i, remote);
}

/// One more object is uploaded, as the manifest shows it.
proof fn lemma_manifest_upload(
    before: ManifestView,
    rows: Seq<DirtyView>,
    at: int,
    manifest: ManifestView,
    i: int,
    remote: RemoteObjectRefView,
)
    requires
        dirty_in_order(rows),
        0 <= at < rows.len(),
        manifest_flushed(before, rows.take(at), newest(rows), manifest),
        same_numbers(before.objects, manifest.objects),
        entry_index(manifest.objects, rows[at].object_id) == Some(i),
    ensures
        manifest_flushed(
            before,
            rows.take(at + 1),
            newest(rows),
            manifest_with(manifest, i, rows[at], remote, rows[at].sha256),
        ),
{
    reveal(manifest_flushed);
    let row = rows[at];
    let after = manifest_with(manifest, i, row, remote, row.sha256);
    lemma_same_numbers(before.objects, manifest.objects, row.object_id);
    lemma_entry_index(before.objects, row.object_id);
    let done = rows.take(at);
    let more = rows.take(at + 1);
    assert(more.drop_last() =~= done);
    assert(more.last() == row);
    assert(dirty_at(done, row.object_id) is None) by {
        if dirty_at(done, row.object_id) is Some {
            let k = lemma_dirty_found(done, row.object_id);
            assert(row_key(rows[k].object_id) < row_key(rows[at].object_id));
        }
    }
    assert(manifest.objects[i] == before.objects[i]) by {
        assert(entry_uploaded(before.objects, done, i, manifest.objects[i]));
    }
    assert(after.garbage =~= before.garbage + replaced_remotes(before.objects, more));
    assert forall|k: int| 0 <= k < before.objects.len() implies entry_uploaded(
        before.objects,
        more,
        k,
        #[trigger] after.objects[k],
    ) by {
        assert(entry_uploaded(before.objects, done, k, manifest.objects[k]));
        assert(before.objects[k].object_id == manifest.objects[k].object_id);
    }
}

/// When all objects are uploaded, the dirty ones can be forgotten.
proof fn lemma_flushed(
    device: DeviceView,
    world: World,
    d: DeviceView,
    after: World,
    other: DeviceView,
)
    requires
        dirty_in_order(device.store.dirty),
        own_files_agree(device, world),
        device.store.dirty.len() > 0,
        flushing(device, world, d, after, device.store.dirty.len() as int),
        other.map == d.map,
        other.manifest == d.manifest,
        other.store.dirty.len() == 0,
        other.store.cache_dir == d.store.cache_dir,
    ensures
        flushed(device, world, other, after),
{
    let rows = device.store.dirty;
    assert(rows.take(rows.len() as int) =~= rows);
    lemma_flushing_keeps_content(device, world, d, after, rows.len() as int);
    lemma_grown_keeps_content(device, world, after);
    reveal(own_files_agree);
    assert forall|id: u64| (#[trigger] dirty_at(rows, id)) is Some implies object_content(
        device,
        world,
        id,
    ) is Some && object_content(other, after, id) == object_content(device, world, id)
        && object_content(other, without_files(after), id) == object_content(
        device,
        world,
        id,
    ) by {
        let k = lemma_dirty_found(rows, id);
        let row = rows[k];
        assert(row_uploaded(d, after, row));
        let i = entry_index(d.manifest.objects, id)->0;
        lemma_entry_index(d.manifest.objects, id);
        let entry = other.manifest.objects[i];
        let stored = StoredView {
            object_id: id,
            generation: row.generation,
            sha256: row.sha256,
            remote: entry.remote->0,
        };
        assert(stored_place(entry) == Ok::<StoredView, DeviceError>(stored));
        let own = path_of(other, stored);
        assert(own == object_path(device.store.cache_dir, id, row.generation));
        assert(own_file_agrees(device, world, id));
    }
    assert forall|id: u64| #[trigger] own_file_agrees(other, after, id) by {}
    assert forall|id: u64| (#[trigger] object_content(device, world, id)) is Some implies
        object_content(other, after, id) == object_content(device, world, id) by {
        if dirty_at(rows, id) is None {
            assert(object_content(other, after, id) == object_content(d, after, id));
        }
    }
    if backed(device, world) {
        assert forall|id: u64|
            dirty_at(other.store.dirty, id) is None && (#[trigger] object_content(
                other,
                after,
                id,
            )) is Some implies object_content(other, without_files(after), id) == object_content(
            other,
            after,
            id,
        ) by {
            if dirty_at(rows, id) is None {
                lemma_same_numbers(device.manifest.objects, d.manifest.objects, id);
                lemma_entry_index(device.manifest.objects, id);
                let i = entry_index(device.manifest.objects, id)->0;
                assert(device.manifest.objects[i].object_id == id);
                assert(object_content(other, after, id) == object_content(device, after, id));
                assert(object_content(other, without_files(after), id) == object_content(
                    device,
                    without_files(after),
                    id,
                ));
            }
        }
    }
}

proof fn lemma_flush_resumed(
    device: DeviceView,
    world: World,
    step: StepView,
    before: World,
    reply: ReplyView,
    now: Seq<char>,
    after: World,
)
    requires
        dirty_in_order(device.store.dirty),
        own_files_agree(device, world),
        flush_state(device, world, step, before),
        step.outcome matches OutcomeView::Wait { action, .. } && answered(
            before,
            action,
            reply,
            after,
        ),
    ensures
        flush_state(
            device,
            world,
            resumed(step.device, step.outcome->Wait_op, reply, now),
            after,
        ),
{
    let d = step.device;
    let rows = device.store.dirty;
    match step.outcome->Wait_op {
        OpView::Flush { at, stage, .. } => {
            if reply is Failed || stage is Committing {
                lemma_more_messages(device, world, d, before, after, at);
            } else {
                match (stage, reply) {
                    (FlushStageView::Reading, _) => {
                        assert(flushing(device, world, d, after, at));
                    },
                    (FlushStageView::Sending { .. }, ReplyView::Sent { reference, ms }) => {
                        match entry_index(d.manifest.objects, rows[at].object_id) {
                            Some(i) => {
                                let metrics = crate::device::with_upload(d.metrics, ms);
                                lemma_upload(
                                    device,
                                    world,
                                    d,
                                    before,
                                    at,
                                    i,
                                    reference,
                                    after,
                                    metrics,
                                );
                                let other = DeviceView {
                                    manifest: manifest_with(
                                        d.manifest,
                                        i,
                                        rows[at],
                                        reference,
                                        rows[at].sha256,
                                    ),
                                    metrics,
                                    ..d
                                };
                                lemma_flush_on(device, world, other, after, at + 1);
                            },
                            None => {
                                lemma_more_messages(device, world, d, before, after, at);
                                let counted = DeviceView {
                                    metrics: crate::device::with_upload(d.metrics, ms),
                                    ..d
                                };
                                assert(flushing(device, world, counted, after, at));
                            },
                        }
                    },
                    (FlushStageView::Encoding, _) => {
                        let next = flush_resumed(d, rows, at, stage, reply, now);
                        if next.outcome is Finished {
                            lemma_flushed(device, world, d, after, next.device);
                        } else {
                            assert(flushing(device, world, d, after, at));
                        }
                    },
                    _ => {},
                }
            }
        },
        _ => {},
    }
}

/// New messages leave a flush where it is.
proof fn lemma_more_messages(
    device: DeviceView,
    world: World,
    d: DeviceView,
    before: World,
    after: World,
    at: int,
)
    requires
        flushing(device, world, d, before, at),
        grown(before, after),
    ensures
        flushing(device, world, d, after, at),
{
    let rows = device.store.dirty;
    assert forall|k: int| 0 <= k < at implies row_uploaded(d, after, #[trigger] rows[k]) by {
        assert(row_uploaded(d, before, rows[k]));
        let i = entry_index(d.manifest.objects, rows[k].object_id)->0;
        let id = d.manifest.objects[i].remote->0.message_id;
        assert(before.messages.dom().contains(id));
    }
    assert forall|id: i32| #[trigger] world.messages.dom().contains(id) implies after.messages.dom().contains(
    id) && after.messages[id] == world.messages[id] by {
        assert(before.messages.dom().contains(id));
    }
}

proof fn lemma_flush_leads(
    device: DeviceView,
    world: World,
    step: StepView,
    before: World,
    events: Seq<Event>,
    last: StepView,
    after: World,
)
    requires
        dirty_in_order(device.store.dirty),
        own_files_agree(device, world),
        flush_state(device, world, step, before),
        leads_to(step, before, events, last, after),
    ensures
        flush_state(device, world, last, after),
    decreases events.len(),
{
    if events.len() > 0 {
        let event = events[0];
        lemma_flush_resumed(
            device,
            world,
            step,
            before,
            event.reply,
            event.now,
            event.world,
        );
        lemma_flush_leads(
            device,
            world,
            resumed(step.device, step.outcome->Wait_op, event.reply, event.now),
            event.world,
            events.skip(1),
            last,
            after,
        );
    }
}

/// A flush that finishes ends with the manifest encoded, and leaves it so in the index.
proof fn lemma_flush_ends(
    store: StoreView,
    step: StepView,
    world: World,
    events: Seq<Event>,
    last: StepView,
    after: World,
)
    requires
        step.device.store == store,
        step.outcome matches OutcomeView::Wait { op, .. } && op is Flush,
        leads_to(step, world, events, last, after),
        last.outcome is Finished,
    ensures
        events.len() > 0,
        events.last().reply matches ReplyView::Encoded { manifest: encoded } && last.device.store
            == flushed_store(store, last.device.manifest, encoded),
    decreases events.len(),
{
    reveal_with_fuel(leads_to, 2);
    let event = events[0];
    let next = resumed(step.device, step.outcome->Wait_op, event.reply, event.now);
    let rest = events.skip(1);
    if rest.len() == 0 {
        assert(events.last() == event);
        match event.reply {
            ReplyView::Encoded { manifest: encoded } => {
                assert(next.device.store =~= flushed_store(store, next.device.manifest, encoded));
            },
            _ => {},
        }
    } else {
        assert(rest.last() == events.last());
        lemma_flush_ends(store, next, event.world, rest, last, after);
    }
}

/// A flush that finishes leaves nothing dirty and changes no content; every object that
/// was dirty can then be read from the remote messages alone, and where every clean
/// object could before, the whole device can. The manifest has the newest generation of the
/// dirty objects, its entries name their new remote copies, the copies replaced are added to
/// its garbage in order, and the index keeps the manifest as it was encoded last. With nothing
/// dirty a flush changes nothing at all.
///
/// Until then, and if it is refused, such as one whose commit failed, it changes no
/// content either and leaves the same objects dirty in the same cache files, so it can be
/// tried again.
pub proof fn law_flush_makes_durable(
    device: DeviceView,
    world: World,
    events: Seq<Event>,
    last: StepView,
    after: World,
)
    requires
        dirty_in_order(device.store.dirty),
        own_files_agree(device, world),
        leads_to(flush_started(device), world, events, last, after),
    ensures
        last.outcome is Finished ==> flushed(device, world, last.device, after),
        last.outcome is Finished && device.store.dirty.len() > 0 ==> events.len() > 0 && (
        events.last().reply matches ReplyView::Encoded { manifest: encoded } && last.device.store
            == flushed_store(device.store, last.device.manifest, encoded)),
        !(last.outcome is Finished) ==> last.device.store == device.store && grown(world, after),
        keeps_content(device, world, last.device, after),
        backed(device, world) ==> backed(last.device, after),
        own_files_agree(device, world) ==> own_files_agree(last.device, after),
        last.device.map == device.map,
        after.files == world.files,
{
    let first = flush_started(device);
    let rows = device.store.dirty;
    if rows.len() == 0 {
        assert(flushed(device, world, device, world)) by {
            assert forall|id: u64| (#[trigger] dirty_at(rows, id)) is None by {}
        }
    } else {
        reveal(manifest_flushed);
        assert(rows.take(0) =~= Seq::<DirtyView>::empty());
        assert(first.device.manifest.garbage =~= device.manifest.garbage + replaced_remotes(
            device.manifest.objects,
            rows.take(0),
        ));
        assert(flushing(device, world, first.device, world, 0));
        lemma_flush_on(device, world, first.device, world, 0);
        if last.outcome is Finished {
            lemma_flush_ends(device.store, first, world, events, last, after);
        }
    }
    lemma_flush_leads(device, world, first, world, events, last, after);
    match last.outcome {
        OutcomeView::Refused { .. } => {
            let count = choose|count: int|
                0 <= count <= rows.len() && #[trigger] flushing(
                    device,
                    world,
                    last.device,
                    after,
                    count,
                );
            lemma_flushing_keeps_content(device, world, last.device, after, count);
        },
        OutcomeView::Wait { op, .. } => match op {
            OpView::Flush { at, .. } => {
                lemma_flushing_keeps_content(device, world, last.device, after, at);
            },
            _ => {},
        },
        _ => {},
    }
}

/// A program that stops in the middle of a flush loses nothing: a device that starts
/// again from the tables, the cache files and the manifest of before holds what the
/// device held.
pub proof fn law_interrupted_flush_loses_nothing(
    device: DeviceView,
    world: World,
    events: Seq<Event>,
    last: StepView,
    after: World,
    restarted: DeviceView,
)
    requires
        dirty_in_order(device.store.dirty),
        own_files_agree(device, world),
        leads_to(flush_started(device), world, events, last, after),
        !(last.outcome is Finished),
        restarted.map == device.map,
        restarted.store == last.device.store,
        restarted.manifest == device.manifest,
    ensures
        restarted.store == device.store,
        keeps_content(device, world, restarted, after),
        backed(device, world) ==> backed(restarted, after),
        own_files_agree(device, world) ==> own_files_agree(restarted, after),
{
    law_flush_makes_durable(device, world, events, last, after);
    lemma_grown_keeps_content(device, world, after);
    assert forall|id: u64, w: World| #[trigger]
        object_content(restarted, w, id) == object_content(device, w, id) by {}
    reveal(own_files_agree);
    if own_files_agree(device, world) {
        assert forall|id: u64| #[trigger] own_file_agrees(restarted, after, id) by {
            assert(own_file_agrees(device, after, id));
        }
    }
}

/// A new machine needs the manifest and the remote messages alone: a device that starts
/// with the manifest of a finished flush, nothing dirty and no cache file holds all that
/// the flushed device held.
pub proof fn law_fresh_machine_holds_the_content(
    device: DeviceView,
    world: World,
    events: Seq<Event>,
    last: StepView,
    after: World,
    fresh: DeviceView,
    later: World,
)
    requires
        dirty_in_order(device.store.dirty),
        own_files_agree(device, world),
        backed(device, world),
        leads_to(flush_started(device), world, events, last, after),
        last.outcome is Finished,
        fresh.map == device.map,
        fresh.manifest == last.device.manifest,
        fresh.store.dirty.len() == 0,
        grown(without_files(after), later),
    ensures
        keeps_content(device, world, fresh, later),
{
    law_flush_makes_durable(device, world, events, last, after);
    let bare = without_files(after);
    lemma_grown_keeps_content(fresh, bare, later);
    assert forall|id: u64| (#[trigger] object_content(device, world, id)) is Some implies
        object_content(fresh, later, id) == object_content(device, world, id) by {
        assert(object_content(last.device, after, id) == object_content(device, world, id));
        assert(dirty_at(last.device.store.dirty, id) is None);
        assert(object_content(last.device, bare, id) == object_content(last.device, after, id));
        assert(object_content(fresh, bare, id) == object_content(last.device, bare, id));
    }
}

/// No entry of the manifest names a message of its garbage.
pub open spec fn garbage_is_dead(manifest: ManifestView) -> bool {
    forall|i: int, k: int|
        0 <= i < manifest.objects.len() && (#[trigger] manifest.objects[i]).remote is Some && 0 <= k
            < manifest.garbage.len() ==> manifest.objects[i].remote->0.message_id != (
        #[trigger] manifest.garbage[k]).message_id
}

/// The messages that the manifest names are all in the channel and apart: no two entries name
/// the same message, and no entry names one of the garbage.
pub open spec fn messages_apart(manifest: ManifestView, messages: Map<i32, Seq<u8>>) -> bool {
    &&& forall|i: int|
        0 <= i < manifest.objects.len() && (#[trigger] manifest.objects[i]).remote is Some
            ==> messages.dom().contains(manifest.objects[i].remote->0.message_id)
    &&& forall|k: int|
        0 <= k < manifest.garbage.len() ==> messages.dom().contains(
            (#[trigger] manifest.garbage[k]).message_id,
        )
    &&& forall|i: int, j: int|
        0 <= i < j < manifest.objects.len() && (#[trigger] manifest.objects[i]).remote is Some && (
        #[trigger] manifest.objects[j]).remote is Some
            ==> manifest.objects[i].remote->0.message_id
            != manifest.objects[j].remote->0.message_id
    &&& garbage_is_dead(manifest)
}

/// More messages leave those apart that were.
pub proof fn lemma_more_messages_apart(
    manifest: ManifestView,
    messages: Map<i32, Seq<u8>>,
    more: Map<i32, Seq<u8>>,
)
    requires
        messages_apart(manifest, messages),
        forall|id: i32| #[trigger] messages.dom().contains(id) ==> more.dom().contains(id),
    ensures
        messages_apart(manifest, more),
{
}

/// An upload under a new number keeps the messages apart.
proof fn lemma_upload_apart(
    manifest: ManifestView,
    messages: Map<i32, Seq<u8>>,
    i: int,
    row: DirtyView,
    remote: RemoteObjectRefView,
    payload: Seq<u8>,
)
    requires
        messages_apart(manifest, messages),
        0 <= i < manifest.objects.len(),
        !messages.dom().contains(remote.message_id),
    ensures
        messages_apart(
            manifest_with(manifest, i, row, remote, row.sha256),
            messages.insert(remote.message_id, payload),
        ),
{
    let after = manifest_with(manifest, i, row, remote, row.sha256);
    let more = messages.insert(remote.message_id, payload);
    assert forall|j: int|
        0 <= j < after.objects.len() && (#[trigger] after.objects[j]).remote is Some implies
        more.dom().contains(after.objects[j].remote->0.message_id) by {
        if j != i {
            assert(after.objects[j] == manifest.objects[j]);
        }
    }
    assert forall|k: int| 0 <= k < after.garbage.len() implies more.dom().contains(
        (#[trigger] after.garbage[k]).message_id,
    ) && remote.message_id != after.garbage[k].message_id by {
        if k < manifest.garbage.len() {
            assert(after.garbage[k] == manifest.garbage[k]);
        } else {
            assert(manifest.objects[i].remote is Some);
        }
    }
    assert forall|p: int, q: int|
        0 <= p < q < after.objects.len() && (#[trigger] after.objects[p]).remote is Some && (
        #[trigger] after.objects[q]).remote is Some implies after.objects[p].remote->0.message_id
        != after.objects[q].remote->0.message_id by {
        if p != i {
            assert(after.objects[p] == manifest.objects[p]);
        }
        if q != i {
            assert(after.objects[q] == manifest.objects[q]);
        }
    }
    assert forall|p: int, k: int|
        0 <= p < after.objects.len() && (#[trigger] after.objects[p]).remote is Some && 0 <= k
            < after.garbage.len() implies after.objects[p].remote->0.message_id != (
    #[trigger] after.garbage[k]).message_id by {
        if p != i {
            assert(after.objects[p] == manifest.objects[p]);
            if k < manifest.garbage.len() {
                assert(after.garbage[k] == manifest.garbage[k]);
            } else {
                let gone = manifest.objects[i];
                assert(gone.remote is Some);
                assert(manifest.objects[p].remote is Some);
                if p < i {
                    assert(manifest.objects[p].remote->0.message_id
                        != manifest.objects[i].remote->0.message_id);
                } else {
                    assert(manifest.objects[i].remote->0.message_id
                        != manifest.objects[p].remote->0.message_id);
                }
            }
        }
    }
}

/// A flush on its way has every object that it sends in its hands.
spec fn is_sending_row(step: StepView) -> bool {
    step.outcome matches OutcomeView::Wait { op, action } ==> op matches OpView::Flush {
        rows,
        at,
        stage,
    } && (stage matches FlushStageView::Sending { sha256 } ==> sha256 == rows[at].sha256)
        && (stage is Sending == action is Send)
}

proof fn lemma_flush_step_apart(
    step: StepView,
    world: World,
    reply: ReplyView,
    now: Seq<char>,
    after: World,
)
    requires
        messages_apart(step.device.manifest, world.messages),
        is_sending_row(step),
        step.outcome matches OutcomeView::Wait { action, .. } && answered(
            world,
            action,
            reply,
            after,
        ),
    ensures
        ({
            let next = resumed(step.device, step.outcome->Wait_op, reply, now);
            messages_apart(next.device.manifest, after.messages) && is_sending_row(next)
        }),
{
    let d = step.device;
    match step.outcome->Wait_op {
        OpView::Flush { rows, at, stage } => {
            match (stage, reply) {
                (FlushStageView::Sending { sha256 }, ReplyView::Sent { reference, .. }) => {
                    let row = rows[at];
                    lemma_entry_index(d.manifest.objects, row.object_id);
                    match entry_index(d.manifest.objects, row.object_id) {
                        Some(i) => {
                            let payload = after.messages[reference.message_id];
                            lemma_upload_apart(
                                d.manifest,
                                world.messages,
                                i,
                                row,
                                reference,
                                payload,
                            );
                            assert(after.messages =~= world.messages.insert(
                                reference.message_id,
                                payload,
                            ));
                        },
                        None => {
                            lemma_more_messages_apart(
                                d.manifest,
                                world.messages,
                                after.messages,
                            );
                        },
                    }
                },
                _ => {
                    lemma_more_messages_apart(d.manifest, world.messages, after.messages);
                },
            }
        },
        _ => {},
    }
}

proof fn lemma_flush_leads_apart(
    step: StepView,
    world: World,
    events: Seq<Event>,
    last: StepView,
    after: World,
)
    requires
        messages_apart(step.device.manifest, world.messages),
        is_sending_row(step),
        leads_to(step, world, events, last, after),
    ensures
        messages_apart(last.device.manifest, after.messages),
    decreases events.len(),
{
    if events.len() > 0 {
        let event = events[0];
        lemma_flush_step_apart(step, world, event.reply, event.now, event.world);
        lemma_flush_leads_apart(
            resumed(step.device, step.outcome->Wait_op, event.reply, event.now),
            event.world,
            events.skip(1),
            last,
            after,
        );
    }
}

/// A flush puts no message that is in use among the garbage: where the messages that the
/// manifest names are in the channel and apart, they are so at every step of the flush,
/// whether it finishes, is refused or is still on its way; so no entry of the manifest that
/// it leaves names a message of that manifest's garbage.
pub proof fn law_flush_leaves_no_live_garbage(
    device: DeviceView,
    world: World,
    events: Seq<Event>,
    last: StepView,
    after: World,
)
    requires
        messages_apart(device.manifest, world.messages),
        leads_to(flush_started(device), world, events, last, after),
    ensures
        garbage_is_dead(last.device.manifest),
        messages_apart(last.device.manifest, after.messages),
{
    let first = flush_started(device);
    assert(messages_apart(first.device.manifest, world.messages));
    lemma_flush_leads_apart(first, world, events, last, after);
}

/// A replaced remote object is one that an entry named.
proof fn lemma_replaced_remotes(objects: Seq<ManifestObjectView>, rows: Seq<DirtyView>, k: int)
    requires
        0 <= k < replaced_remotes(objects, rows).len(),
    ensures
        exists|i: int|
            0 <= i < objects.len() && (#[trigger] objects[i]).remote == Some(
                replaced_remotes(objects, rows)[k],
            ),
    decreases rows.len(),
{
    let rest = replaced_remotes(objects, rows.drop_last());
    lemma_entry_index(objects, rows.last().object_id);
    if k < rest.len() {
        lemma_replaced_remotes(objects, rows.drop_last(), k);
        assert(replaced_remotes(objects, rows)[k] == rest[k]);
    } else {
        let i = entry_index(objects, rows.last().object_id)->0;
        assert(objects[i].remote == Some(replaced_remotes(objects, rows)[k]));
    }
}

/// All garbage of a finished flush was in the channel when the flush began.
pub proof fn lemma_garbage_was_there(
    device: DeviceView,
    world: World,
    other: DeviceView,
    after: World,
)
    requires
        flushed(device, world, other, after),
        messages_apart(device.manifest, world.messages),
    ensures
        garbage_ids(other.manifest).subset_of(world.messages.dom()),
{
    reveal(manifest_flushed);
    let before = device.manifest;
    let rows = device.store.dirty;
    assert forall|id: i32| #[trigger] garbage_ids(other.manifest).contains(id) implies
        world.messages.dom().contains(id) by {
        let k = choose|k: int|
            0 <= k < other.manifest.garbage.len() && (
            #[trigger] other.manifest.garbage[k]).message_id == id;
        if k < before.garbage.len() {
            assert(other.manifest.garbage[k] == before.garbage[k]);
        } else {
            let m = k - before.garbage.len();
            lemma_replaced_remotes(before.objects, rows, m);
            let i = choose|i: int|
                0 <= i < before.objects.len() && (#[trigger] before.objects[i]).remote == Some(
                    replaced_remotes(before.objects, rows)[m],
                );
            assert(before.objects[i].remote is Some);
        }
    }
}

/// The numbers of the messages that the manifest's garbage names.
pub open spec fn garbage_ids(manifest: ManifestView) -> Set<i32> {
    Set::new(
        |id: i32|
            exists|k: int|
                0 <= k < manifest.garbage.len() && (#[trigger] manifest.garbage[k]).message_id
                    == id,
    )
}

/// The world after the messages of the manifest's garbage were deleted.
pub open spec fn collected(world: World, manifest: ManifestView) -> World {
    World { messages: world.messages.remove_keys(garbage_ids(manifest)), ..world }
}

/// Deleting the garbage of a manifest loses no object: where no entry names a message of the
/// garbage, every object holds what it held before, with the cache and without it.
pub proof fn law_collecting_garbage_keeps_content(device: DeviceView, world: World)
    requires
        garbage_is_dead(device.manifest),
    ensures
        forall|id: u64| #[trigger]
            object_content(device, collected(world, device.manifest), id) == object_content(
                device,
                world,
                id,
            ),
        backed(device, world) ==> backed(device, collected(world, device.manifest)),
        own_files_agree(device, world) ==> own_files_agree(
            device,
            collected(world, device.manifest),
        ),
{
    let after = collected(world, device.manifest);
    assert forall|id: u64| #[trigger]
        object_content(device, after, id) == object_content(device, world, id) by {
        lemma_collected_object(device, world, id);
    }
    assert forall|id: u64| #[trigger]
        object_content(device, without_files(after), id) == object_content(
            device,
            without_files(world),
            id,
        ) by {
        lemma_collected_object(device, without_files(world), id);
        assert(collected(without_files(world), device.manifest) == without_files(after));
    }
    reveal(own_files_agree);
    if own_files_agree(device, world) {
        assert forall|id: u64| #[trigger] own_file_agrees(device, after, id) by {
            assert(own_file_agrees(device, world, id));
        }
    }
}

proof fn lemma_collected_object(device: DeviceView, world: World, object_id: u64)
    requires
        garbage_is_dead(device.manifest),
    ensures
        object_content(device, collected(world, device.manifest), object_id) == object_content(
            device,
            world,
            object_id,
        ),
{
    if dirty_at(device.store.dirty, object_id) is None {
        lemma_entry_index(device.manifest.objects, object_id);
        match entry_index(device.manifest.objects, object_id) {
            Some(i) => {
                let entry = device.manifest.objects[i];
                if entry.remote is Some {
                    let id = entry.remote->0.message_id;
                    assert(!garbage_ids(device.manifest).contains(id)) by {
                        if garbage_ids(device.manifest).contains(id) {
                            let k = choose|k: int|
                                0 <= k < device.manifest.garbage.len() && (
                                #[trigger] device.manifest.garbage[k]).message_id == id;
                            assert(device.manifest.objects[i].remote is Some);
                        }
                    }
                }
            },
            None => {},
        }
    }
}

/// The generation that a flush gives the manifest is the largest of those of the dirty objects:
/// one of them has it, and none is above it.
pub proof fn law_flush_takes_the_newest_generation(rows: Seq<DirtyView>)
    ensures
        rows.len() > 0 ==> exists|k: int|
            0 <= k < rows.len() && (#[trigger] rows[k]).generation == newest(rows),
        forall|k: int| 0 <= k < rows.len() ==> (#[trigger] rows[k]).generation <= newest(rows),
    decreases rows.len(),
{
    if rows.len() > 0 {
        let head = rows.drop_last();
        let last = rows.len() - 1;
        law_flush_takes_the_newest_generation(head);
        assert forall|k: int| 0 <= k < rows.len() implies (#[trigger] rows[k]).generation <= newest(
            rows,
        ) by {
            if k < last {
                assert(head[k] == rows[k]);
            }
        }
        if newest(rows) == rows.last().generation {
            assert(rows[last].generation == newest(rows));
        } else {
            assert(head.len() > 0);
            let k = choose|k: int|
                0 <= k < head.len() && (#[trigger] head[k]).generation == newest(head);
            assert(rows[k].generation == newest(rows));
        }
    }
}

} // verus!
