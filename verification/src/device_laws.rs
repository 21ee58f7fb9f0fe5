//! What the device promises of reads, writes and flushes taken as a whole.
use vstd::prelude::*;

use crate::block::BlockMap;
use crate::cache::{changed_by, dirty_at, law_object_paths_are_distinct, object_path, DirtyView};
use crate::device::{
    device_changed, flush_resumed, flush_started, is_stored_form, message_ids, object_at,
    object_resumed, object_size, object_started, padded, place_at, probe_on, read_ahead, read_on,
    read_resumed, read_started, resumed, span_at, store_on, stored_place, write_resumed,
    write_started, zeros, ActionView, DeviceError, DeviceView, FlushStageView, ObjectOutcomeView,
    ObjectStageView, OpView, OutcomeView, ReadStageView, ReplyView, StepView, StoredView,
    WriteStageView,
};
use crate::digest::sha256_text;
use crate::envelope::open_envelope;
use crate::index::{lemma_changed_by_one, lemma_changed_by_two};
use crate::manifest::{entry_index, lemma_entry_index};

verus! {

/// What lies outside the device: files by their path, remote messages by their number.
#[verifier::ext_equal]
pub struct World {
    pub files: Map<Seq<char>, Seq<u8>>,
    pub messages: Map<i32, Seq<u8>>,
}

/// The messages of `after` include those of `before`.
pub open spec fn grown(before: World, after: World) -> bool {
    &&& after.files == before.files
    &&& forall|id: i32| #[trigger]
        before.messages.dom().contains(id) ==> after.messages.dom().contains(id)
            && after.messages[id] == before.messages[id]
}

/// The message with the given number, if there is one.
pub open spec fn message_at(world: World, id: i32) -> Option<Seq<u8>> {
    if world.messages.dom().contains(id) {
        Some(world.messages[id])
    } else {
        None
    }
}

/// The reply is what the world gives to the action, and the world becomes `after`. Work
/// that fails changes no file; it may leave messages behind.
pub open spec fn answered(world: World, action: ActionView, reply: ReplyView, after: World) -> bool {
    match (action, reply) {
        (_, ReplyView::Failed) => grown(world, after),
        (ActionView::ReadFile { path }, ReplyView::File { content }) => {
            after == world && world.files.dom().contains(path) && world.files[path] == content
        },
        (ActionView::ReadFile { path }, ReplyView::NoFile) => {
            after == world && !world.files.dom().contains(path)
        },
        (ActionView::WriteFile { path, bytes }, ReplyView::Done) => {
            after == (World { files: world.files.insert(path, bytes), ..world })
        },
        (ActionView::Fetch { reference }, ReplyView::Fetched { payload, .. }) => {
            after == world && message_at(world, reference.message_id) == Some(payload)
        },
        (ActionView::FetchMany { ids }, ReplyView::Messages { payloads, .. }) => {
            after == world && payloads == Seq::new(ids.len(), |i: int| message_at(world, ids[i]))
        },
        (ActionView::Send { payload, .. }, ReplyView::Sent { reference, .. }) => {
            &&& !world.messages.dom().contains(reference.message_id)
            &&& after == (World {
                messages: world.messages.insert(reference.message_id, payload),
                ..world
            })
        },
        (ActionView::Commit, ReplyView::Done) => grown(world, after),
        (ActionView::EncodeManifest, ReplyView::Encoded { .. }) => after == world,
        _ => false,
    }
}

/// A reply, the time at which it came, and the world that it left.
pub struct Event {
    pub reply: ReplyView,
    pub now: Seq<char>,
    pub world: World,
}

/// The replies lead a request from one step to another, and the world from `world` to
/// `after`.
pub open spec fn leads_to(
    step: StepView,
    world: World,
    events: Seq<Event>,
    last: StepView,
    after: World,
) -> bool
    decreases events.len(),
{
    if events.len() == 0 {
        last == step && after == world
    } else {
        match step.outcome {
            OutcomeView::Wait { op, action } => {
                let event = events[0];
                &&& answered(world, action, event.reply, event.world)
                &&& leads_to(
                    resumed(step.device, op, event.reply, event.now),
                    event.world,
                    events.skip(1),
                    last,
                    after,
                )
            },
            _ => false,
        }
    }
}

/// A request was refused because the outside work that it asked for last failed.
pub open spec fn outside_failed(events: Seq<Event>, error: DeviceError) -> bool {
    error == DeviceError::Outside && events.len() > 0 && events.last().reply is Failed
}

/// What bytes with the given digest give as a generation of an object, if they do.
pub open spec fn checked_object(
    map: BlockMap,
    bytes: Seq<u8>,
    sha256: Seq<char>,
    object_id: u64,
    generation: u64,
) -> Option<Seq<u8>> {
    if sha256_text(bytes) != sha256 {
        None
    } else {
        match open_envelope(bytes, object_id, generation) {
            Ok(envelope) => Some(padded(envelope.payload, map.object_size as int)),
            Err(_) => None,
        }
    }
}

/// The cache file of a stored object.
pub open spec fn path_of(device: DeviceView, object: StoredView) -> Seq<char> {
    object_path(device.store.cache_dir, object.object_id, object.generation)
}

/// What a stored object holds: its cache file decides if it exists, else its message.
pub open spec fn stored_content(device: DeviceView, world: World, object: StoredView) -> Option<
    Seq<u8>,
> {
    let source = if world.files.dom().contains(path_of(device, object)) {
        Some(world.files[path_of(device, object)])
    } else {
        message_at(world, object.remote.message_id)
    };
    match source {
        Some(bytes) => checked_object(
            device.map,
            bytes,
            object.sha256,
            object.object_id,
            object.generation,
        ),
        None => None,
    }
}

/// What an object of the device holds, where that can be read.
pub open spec fn object_content(device: DeviceView, world: World, object_id: u64) -> Option<
    Seq<u8>,
> {
    match dirty_at(device.store.dirty, object_id) {
        Some(row) => if world.files.dom().contains(row.cache_path) {
            checked_object(
                device.map,
                world.files[row.cache_path],
                row.sha256,
                row.object_id,
                row.generation,
            )
        } else {
            None
        },
        None => match entry_index(device.manifest.objects, object_id) {
            None => None,
            Some(i) => {
                let entry = device.manifest.objects[i];
                if entry.zero {
                    Some(zeros(object_size(device)))
                } else {
                    match stored_place(entry) {
                        Ok(object) => stored_content(device, world, object),
                        Err(_) => None,
                    }
                }
            },
        },
    }
}

/// The byte of the device at a position, where it can be read.
pub open spec fn device_byte(device: DeviceView, world: World, position: int) -> Option<u8> {
    match object_content(device, world, object_at(device, position)) {
        Some(bytes) => Some(bytes[place_at(device, position)]),
        None => None,
    }
}

/// Where an object is dirty and lies in the cache file of some number and generation, these
/// are its own.
pub open spec fn row_apart(
    rows: Seq<DirtyView>,
    cache_dir: Seq<char>,
    object_id: u64,
    other_id: u64,
    generation: u64,
) -> bool {
    match dirty_at(rows, object_id) {
        None => true,
        Some(row) => row.cache_path == object_path(cache_dir, other_id, generation) ==> {
            &&& other_id == object_id
            &&& generation == row.generation
        },
    }
}

/// No dirty object lies in the cache file of another object, or of another generation.
#[verifier::opaque]
pub open spec fn rows_apart(rows: Seq<DirtyView>, cache_dir: Seq<char>) -> bool {
    forall|object_id: u64, other_id: u64, generation: u64| #[trigger]
        row_apart(rows, cache_dir, object_id, other_id, generation)
}

/// Where an object is dirty and the cache file of its number and generation exists, that
/// file holds what the object holds. It does where the object lies in that file.
pub open spec fn own_file_agrees(device: DeviceView, world: World, object_id: u64) -> bool {
    match dirty_at(device.store.dirty, object_id) {
        None => true,
        Some(row) => {
            let own = object_path(device.store.cache_dir, object_id, row.generation);
            let held = object_content(device, world, object_id);
            held is Some && world.files.dom().contains(own) ==> checked_object(
                device.map,
                world.files[own],
                row.sha256,
                object_id,
                row.generation,
            ) == held
        },
    }
}

/// No dirty object has a cache file that would give other content once it is clean.
#[verifier::opaque]
pub open spec fn own_files_agree(device: DeviceView, world: World) -> bool {
    forall|object_id: u64| #[trigger] own_file_agrees(device, world, object_id)
}

/// Where every dirty object lies in the cache file of its own number and generation, none lies
/// in that of another, and none has a second file.
pub proof fn law_objects_in_their_own_files(device: DeviceView, world: World)
    requires
        forall|object_id: u64|
            (#[trigger] dirty_at(device.store.dirty, object_id)) matches Some(row)
                ==> row.cache_path == object_path(
                device.store.cache_dir,
                object_id,
                row.generation,
            ),
    ensures
        rows_apart(device.store.dirty, device.store.cache_dir),
        own_files_agree(device, world),
{
    reveal(rows_apart);
    reveal(own_files_agree);
    let store = device.store;
    assert forall|id: u64, other_id: u64, generation: u64| #[trigger]
        row_apart(store.dirty, store.cache_dir, id, other_id, generation) by {
        if dirty_at(store.dirty, id) is Some {
            let row = dirty_at(store.dirty, id)->0;
            if row.cache_path == object_path(store.cache_dir, other_id, generation) {
                law_object_paths_are_distinct(
                    store.cache_dir,
                    id,
                    row.generation,
                    other_id,
                    generation,
                );
            }
        }
    }
    assert forall|id: u64| #[trigger] own_file_agrees(device, world, id) by {
        lemma_dirty_number(store.dirty, id);
    }
}

/// What is found under a number has that number.
proof fn lemma_dirty_number(rows: Seq<DirtyView>, object_id: u64)
    ensures
        dirty_at(rows, object_id) matches Some(row) ==> row.object_id == object_id,
    decreases rows.len(),
{
    if rows.len() > 0 && rows.last().object_id != object_id {
        lemma_dirty_number(rows.drop_last(), object_id);
    }
}

/// Both devices, each in its world, hold the same objects.
pub open spec fn same_content(
    device: DeviceView,
    world: World,
    other: DeviceView,
    other_world: World,
) -> bool {
    forall|object_id: u64| #[trigger]
        object_content(other, other_world, object_id) == object_content(device, world, object_id)
}

/// The world with no file left.
pub open spec fn without_files(world: World) -> World {
    World { files: Map::empty(), ..world }
}

/// Every clean object that can be read can be read from the remote messages alone, with
/// the same content.
pub open spec fn backed(device: DeviceView, world: World) -> bool {
    forall|object_id: u64|
        dirty_at(device.store.dirty, object_id) is None && (#[trigger] object_content(
            device,
            world,
            object_id,
        )) is Some ==> object_content(device, without_files(world), object_id) == object_content(
            device,
            world,
            object_id,
        )
}

/// The devices differ at most in their totals and cache entries.
pub open spec fn same_objects(device: DeviceView, other: DeviceView) -> bool {
    &&& same_settings(device, other)
    &&& other.manifest == device.manifest
    &&& other.store.dirty == device.store.dirty
    &&& other.store.wal == device.store.wal
    &&& other.store.refs == device.store.refs
    &&& other.store.manifest == device.store.manifest
    &&& other.store.cache_dir == device.store.cache_dir
}

/// The devices have the same sizes, the same limits, and a committer both or neither.
pub open spec fn same_settings(device: DeviceView, other: DeviceView) -> bool {
    &&& other.map == device.map
    &&& other.has_committer == device.has_committer
    &&& other.max_dirty_objects == device.max_dirty_objects
    &&& other.read_ahead_objects == device.read_ahead_objects
}

/// The object is the current one under its number, and is clean.
pub open spec fn is_place(device: DeviceView, object: StoredView) -> bool {
    &&& dirty_at(device.store.dirty, object.object_id) is None
    &&& entry_index(device.manifest.objects, object.object_id) matches Some(i)
        && !device.manifest.objects[i].zero && stored_place(device.manifest.objects[i]) == Ok::<
        StoredView,
        DeviceError,
    >(object)
}

/// Saving a clean object's own message to its cache file changes no content.
proof fn lemma_caching_keeps_content(
    device: DeviceView,
    world: World,
    object: StoredView,
    bytes: Seq<u8>,
)
    requires
        rows_apart(device.store.dirty, device.store.cache_dir),
        is_place(device, object),
        !world.files.dom().contains(path_of(device, object)),
        message_at(world, object.remote.message_id) == Some(bytes),
    ensures
        same_content(
            device,
            world,
            device,
            (World { files: world.files.insert(path_of(device, object), bytes), ..world }),
        ),
        backed(device, world) ==> backed(
            device,
            (World { files: world.files.insert(path_of(device, object), bytes), ..world }),
        ),
        own_files_agree(device, world) ==> own_files_agree(
            device,
            (World { files: world.files.insert(path_of(device, object), bytes), ..world }),
        ),
{
    let path = path_of(device, object);
    let after = World { files: world.files.insert(path, bytes), ..world };
    assert forall|id: u64| #[trigger]
        object_content(device, after, id) == object_content(device, world, id) by {
        match dirty_at(device.store.dirty, id) {
            Some(row) => {
                reveal(rows_apart);
                assert(row_apart(
                    device.store.dirty,
                    device.store.cache_dir,
                    id,
                    object.object_id,
                    object.generation,
                ));
                assert(row.cache_path != path);
            },
            None => match entry_index(device.manifest.objects, id) {
                None => {},
                Some(i) => {
                    let entry = device.manifest.objects[i];
                    lemma_entry_index(device.manifest.objects, id);
                    match stored_place(entry) {
                        Ok(other) => {
                            if path_of(device, other) == path {
                                law_object_paths_are_distinct(
                                    device.store.cache_dir,
                                    other.object_id,
                                    other.generation,
                                    object.object_id,
                                    object.generation,
                                );
                            }
                        },
                        Err(_) => {},
                    }
                },
            },
        }
    }
    assert(without_files(after) == without_files(world));
    reveal(own_files_agree);
    if own_files_agree(device, world) {
        assert forall|id: u64| #[trigger] own_file_agrees(device, after, id) by {
            assert(own_file_agrees(device, world, id));
            assert(object_content(device, after, id) == object_content(device, world, id));
            if dirty_at(device.store.dirty, id) is Some {
                let row = dirty_at(device.store.dirty, id)->0;
                if object_path(device.store.cache_dir, id, row.generation) == path {
                    law_object_paths_are_distinct(
                        device.store.cache_dir,
                        id,
                        row.generation,
                        object.object_id,
                        object.generation,
                    );
                }
            }
        }
    }
}

/// Content depends on the objects and the world alone.
pub proof fn lemma_same_objects_same_content(device: DeviceView, other: DeviceView, world: World)
    requires
        same_objects(device, other),
    ensures
        same_content(device, world, other, world),
        backed(device, world) ==> backed(other, world),
        own_files_agree(device, world) ==> own_files_agree(other, world),
{
    assert forall|id: u64| #[trigger] object_content(other, world, id) == object_content(
        device,
        world,
        id,
    ) && object_content(other, without_files(world), id) == object_content(
        device,
        without_files(world),
        id,
    ) by {}
    reveal(own_files_agree);
    if own_files_agree(device, world) {
        assert forall|id: u64| #[trigger] own_file_agrees(other, world, id) by {
            assert(own_file_agrees(device, world, id));
        }
    }
}

/// The stage is one in the reading of object `object_id`, and waits for `action`.
pub open spec fn stage_ok(
    device: DeviceView,
    world: World,
    object_id: u64,
    stage: ObjectStageView,
    action: ActionView,
) -> bool {
    match stage {
        ObjectStageView::Dirty { row } => {
            &&& dirty_at(device.store.dirty, object_id) == Some(row)
            &&& action == (ActionView::ReadFile { path: row.cache_path })
        },
        ObjectStageView::Cached { object } => {
            &&& is_place(device, object)
            &&& object.object_id == object_id
            &&& action == (ActionView::ReadFile { path: path_of(device, object) })
        },
        ObjectStageView::Remote { object } => {
            &&& is_place(device, object)
            &&& object.object_id == object_id
            &&& !world.files.dom().contains(path_of(device, object))
            &&& action == (ActionView::Fetch { reference: object.remote })
        },
        ObjectStageView::Saving { object, encoded } => {
            &&& is_place(device, object)
            &&& object.object_id == object_id
            &&& !world.files.dom().contains(path_of(device, object))
            &&& message_at(world, object.remote.message_id) == Some(encoded)
            &&& sha256_text(encoded) == object.sha256
            &&& action == (ActionView::WriteFile { path: path_of(device, object), bytes: encoded })
        },
    }
}

/// The first step in reading an object gives its content, or waits.
pub proof fn lemma_object_started(device: DeviceView, world: World, object_id: u64)
    requires
        rows_apart(device.store.dirty, device.store.cache_dir),
    ensures
        match object_started(device, object_id) {
            ObjectOutcomeView::Read { bytes } => object_content(device, world, object_id) == Some(
                bytes,
            ) && bytes.len() == object_size(device),
            ObjectOutcomeView::Wait { stage, action } => stage_ok(
                device,
                world,
                object_id,
                stage,
                action,
            ),
            ObjectOutcomeView::Refused { .. } => object_content(device, world, object_id) is None,
        },
{
    lemma_entry_index(device.manifest.objects, object_id);
}

/// Every further step in reading an object keeps all content, and gives the content of
/// the object or waits.
pub proof fn lemma_object_resumed(
    device: DeviceView,
    world: World,
    object_id: u64,
    stage: ObjectStageView,
    action: ActionView,
    reply: ReplyView,
    now: Seq<char>,
    after: World,
)
    requires
        rows_apart(device.store.dirty, device.store.cache_dir),
        stage_ok(device, world, object_id, stage, action),
        answered(world, action, reply, after),
        !(reply is Failed),
    ensures
        ({
            let step = object_resumed(device, stage, reply, now);
            &&& same_objects(device, step.device)
            &&& same_content(device, world, step.device, after)
            &&& backed(device, world) ==> backed(step.device, after)
            &&& own_files_agree(device, world) ==> own_files_agree(step.device, after)
            &&& match step.outcome {
                ObjectOutcomeView::Read { bytes } => object_content(device, world, object_id)
                    == Some(bytes) && bytes.len() == object_size(device),
                ObjectOutcomeView::Wait { stage, action } => stage_ok(
                    step.device,
                    after,
                    object_id,
                    stage,
                    action,
                ),
                ObjectOutcomeView::Refused { .. } => object_content(device, world, object_id)
                    is None,
            }
        }),
{
    let step = object_resumed(device, stage, reply, now);
    match (stage, reply) {
        (ObjectStageView::Saving { object, encoded }, ReplyView::Done) => {
            lemma_caching_keeps_content(device, world, object, encoded);
            lemma_same_objects_same_content(device, step.device, after);
        },
        _ => {
            lemma_same_objects_same_content(device, step.device, after);
        },
    }
}

/// What could be read before is there, unchanged.
pub open spec fn keeps_content(
    device: DeviceView,
    world: World,
    other: DeviceView,
    other_world: World,
) -> bool {
    forall|object_id: u64|
        (#[trigger] object_content(device, world, object_id)) is Some ==> object_content(
            other,
            other_world,
            object_id,
        ) == object_content(device, world, object_id)
}

/// New messages take no content away.
pub proof fn lemma_grown_keeps_content(device: DeviceView, world: World, after: World)
    requires
        grown(world, after),
    ensures
        keeps_content(device, world, device, after),
        backed(device, world) ==> backed(device, after),
        own_files_agree(device, world) ==> own_files_agree(device, after),
{
    reveal(own_files_agree);
    if own_files_agree(device, world) {
        assert forall|id: u64| #[trigger] own_file_agrees(device, after, id) by {
            assert(own_file_agrees(device, world, id));
        }
    }
    assert forall|id: u64| (#[trigger] object_content(device, world, id)) is Some implies
        object_content(device, after, id) == object_content(device, world, id) by {
        if dirty_at(device.store.dirty, id) is None {
            let i = entry_index(device.manifest.objects, id)->0;
            match stored_place(device.manifest.objects[i]) {
                Ok(object) => {
                    if message_at(world, object.remote.message_id) is Some {
                        assert(world.messages.dom().contains(object.remote.message_id));
                    }
                },
                Err(_) => {},
            }
        }
    }
    if backed(device, world) {
        assert forall|id: u64|
            dirty_at(device.store.dirty, id) is None && (#[trigger] object_content(
                device,
                after,
                id,
            )) is Some implies object_content(device, without_files(after), id) == object_content(
            device,
            after,
            id,
        ) by {
            let i = entry_index(device.manifest.objects, id)->0;
            match stored_place(device.manifest.objects[i]) {
                Ok(object) => {
                    if after.files.dom().contains(path_of(device, object)) {
                        let known = object_content(device, world, id);
                        if message_at(world, object.remote.message_id) is Some {
                            assert(world.messages.dom().contains(object.remote.message_id));
                        }
                    }
                },
                Err(_) => {},
            }
        }
    }
}

proof fn lemma_failure_keeps_content(
    device: DeviceView,
    world: World,
    now_device: DeviceView,
    before: World,
    after: World,
)
    requires
        same_content(device, world, now_device, before),
        backed(device, world) ==> backed(now_device, before),
        own_files_agree(device, world) ==> own_files_agree(now_device, before),
        grown(before, after),
    ensures
        keeps_content(device, world, now_device, after),
        backed(device, world) ==> backed(now_device, after),
        own_files_agree(device, world) ==> own_files_agree(now_device, after),
{
    lemma_grown_keeps_content(now_device, before, after);
    assert forall|id: u64| (#[trigger] object_content(device, world, id)) is Some implies
        object_content(now_device, after, id) == object_content(device, world, id) by {
        assert(object_content(now_device, before, id) == object_content(device, world, id));
    }
}

/// `out` holds the `count` bytes of the device from `offset` on.
pub open spec fn is_read(
    device: DeviceView,
    world: World,
    offset: int,
    out: Seq<u8>,
    count: int,
) -> bool {
    &&& out.len() == count
    &&& forall|p: int|
        0 <= p < count ==> device_byte(device, world, offset + p) == Some(#[trigger] out[p])
}

/// Positions behind the cursor in the same object.
pub proof fn lemma_positions(device: DeviceView, cursor: int, step: int)
    requires
        object_size(device) > 0,
        0 <= cursor,
        0 <= step,
        place_at(device, cursor) + step < object_size(device),
    ensures
        object_at(device, cursor + step) == object_at(device, cursor),
        place_at(device, cursor + step) == place_at(device, cursor) + step,
{
    let size = object_size(device);
    let q = cursor / size;
    let r = cursor % size;
    vstd::arithmetic::div_mod::lemma_fundamental_div_mod(cursor, size);
    assert(cursor + step == q * size + (r + step)) by (nonlinear_arith)
        requires
            cursor == size * q + r,
    ;
    vstd::arithmetic::div_mod::lemma_fundamental_div_mod_converse(
        cursor + step,
        size,
        q,
        r + step,
    );
}

/// Appending the cursor's part of the object at the cursor.
proof fn lemma_read_piece(
    device: DeviceView,
    world: World,
    offset: int,
    out: Seq<u8>,
    count: int,
    span: int,
    bytes: Seq<u8>,
)
    requires
        object_size(device) > 0,
        0 <= offset,
        0 <= count,
        is_read(device, world, offset, out, count),
        object_content(device, world, object_at(device, offset + count)) == Some(bytes),
        bytes.len() == object_size(device),
        0 <= span,
        place_at(device, offset + count) + span <= object_size(device),
    ensures
        is_read(
            device,
            world,
            offset,
            out + bytes.subrange(
                place_at(device, offset + count),
                place_at(device, offset + count) + span,
            ),
            count + span,
        ),
{
    let cursor = offset + count;
    let place = place_at(device, cursor);
    let piece = bytes.subrange(place, place + span);
    let all = out + piece;
    assert(0 <= place < object_size(device)) by {
        vstd::arithmetic::div_mod::lemma_fundamental_div_mod(cursor, object_size(device));
    }
    assert forall|p: int| 0 <= p < count + span implies device_byte(device, world, offset + p)
        == Some(#[trigger] all[p]) by {
        if p < count {
            assert(all[p] == out[p]);
        } else {
            lemma_positions(device, cursor, p - count);
            assert(all[p] == piece[p - count]);
            assert(offset + p == cursor + (p - count));
        }
    }
}

/// A part of an object is not empty and lies in the object.
pub proof fn lemma_span(device: DeviceView, cursor: int, remaining: int)
    requires
        object_size(device) > 0,
        0 <= cursor,
        0 < remaining,
    ensures
        0 < span_at(device, cursor, remaining) <= remaining,
        0 <= place_at(device, cursor),
        place_at(device, cursor) + span_at(device, cursor, remaining) <= object_size(device),
{
    vstd::arithmetic::div_mod::lemma_fundamental_div_mod(cursor, object_size(device));
}

/// The objects ahead are current, clean, different, have no cache file, and stand
/// before `bound`.
pub open spec fn wanted_ok(
    device: DeviceView,
    world: World,
    wanted: Seq<StoredView>,
    from: int,
    bound: int,
) -> bool {
    &&& forall|k: int|
        from <= k < wanted.len() ==> is_place(device, #[trigger] wanted[k])
            && !world.files.dom().contains(path_of(device, wanted[k])) && wanted[k].object_id
            < bound
    &&& forall|i: int, j: int|
        from <= i < j < wanted.len() ==> (#[trigger] wanted[i]).object_id != (
        #[trigger] wanted[j]).object_id
}

/// Some byte from `offset` on, within `len` bytes, cannot be read.
pub open spec fn unreadable(device: DeviceView, world: World, offset: int, len: int) -> bool {
    exists|position: int|
        offset <= position < offset + len && (#[trigger] device_byte(device, world, position))
            is None
}

/// What holds of a read of `len` bytes from `offset` on, begun with `device` in
/// `world`, when it has come to `step` in `after`.
pub open spec fn read_state(
    device: DeviceView,
    world: World,
    offset: int,
    len: int,
    step: StepView,
    after: World,
) -> bool {
    let now_device = step.device;
    &&& same_objects(device, now_device)
    &&& backed(device, world) ==> backed(now_device, after)
    &&& own_files_agree(device, world) ==> own_files_agree(now_device, after)
    &&& match step.outcome {
        OutcomeView::Refused { error } => {
            &&& keeps_content(device, world, now_device, after)
            &&& (error == DeviceError::ReadOutOfBounds && offset + len > device.map.device_size)
                || unreadable(device, world, offset, len)
        },
        OutcomeView::Finished { bytes } => {
            &&& keeps_content(device, world, now_device, after)
            &&& is_read(device, world, offset, bytes, len)
        },
        OutcomeView::Wait { op, action } => {
            &&& same_content(device, world, now_device, after)
            &&& op matches OpView::Read { cursor, remaining, out, stage } && {
                &&& 0 <= remaining
                &&& cursor == offset + len - remaining
                &&& is_read(device, world, offset, out, len - remaining)
                &&& match stage {
                    ReadStageView::Object { stage } => {
                        &&& remaining > 0
                        &&& stage_ok(
                            now_device,
                            after,
                            object_at(now_device, cursor),
                            stage,
                            action,
                        )
                    },
                    ReadStageView::Probing { next, end, wanted, object } => {
                        &&& remaining == 0
                        &&& next < end
                        &&& object.object_id == next
                        &&& is_place(now_device, object)
                        &&& wanted_ok(now_device, after, wanted, 0, next as int)
                        &&& action == (ActionView::ReadFile { path: path_of(now_device, object) })
                    },
                    ReadStageView::Fetching { wanted } => {
                        &&& remaining == 0
                        &&& wanted_ok(now_device, after, wanted, 0, u64::MAX + 1)
                        &&& action == (ActionView::FetchMany { ids: message_ids(wanted) })
                    },
                    ReadStageView::Storing { wanted, payloads, at } => {
                        &&& remaining == 0
                        &&& storing_ok(now_device, after, wanted, payloads, at)
                        &&& 0 <= at < wanted.len()
                        &&& payloads[at] is Some
                        &&& action == (ActionView::WriteFile {
                            path: path_of(now_device, wanted[at]),
                            bytes: payloads[at]->0,
                        })
                    },
                }
            }
        },
    }
}

/// What holds of a read that was refused because outside work failed.
pub open spec fn read_broken(
    device: DeviceView,
    world: World,
    step: StepView,
    after: World,
) -> bool {
    &&& step.outcome == (OutcomeView::Refused { error: DeviceError::Outside })
    &&& same_objects(device, step.device)
    &&& keeps_content(device, world, step.device, after)
    &&& backed(device, world) ==> backed(step.device, after)
    &&& own_files_agree(device, world) ==> own_files_agree(step.device, after)
}

/// The payloads are the messages of the objects ahead; those from `at` on have no cache
/// file yet.
pub open spec fn storing_ok(
    device: DeviceView,
    world: World,
    wanted: Seq<StoredView>,
    payloads: Seq<Option<Seq<u8>>>,
    at: int,
) -> bool {
    &&& payloads.len() == wanted.len()
    &&& wanted_ok(device, world, wanted, at, u64::MAX + 1)
    &&& forall|k: int|
        0 <= k < wanted.len() ==> #[trigger] payloads[k] == message_at(
            world,
            wanted[k].remote.message_id,
        )
}

proof fn lemma_store_on(
    device: DeviceView,
    world: World,
    offset: int,
    len: int,
    now_device: DeviceView,
    after: World,
    cursor: int,
    out: Seq<u8>,
    wanted: Seq<StoredView>,
    payloads: Seq<Option<Seq<u8>>>,
    at: int,
)
    requires
        0 <= at,
        cursor == offset + len,
        same_objects(device, now_device),
        same_content(device, world, now_device, after),
        backed(device, world) ==> backed(now_device, after),
        own_files_agree(device, world) ==> own_files_agree(now_device, after),
        is_read(device, world, offset, out, len),
        storing_ok(now_device, after, wanted, payloads, at),
    ensures
        read_state(
            device,
            world,
            offset,
            len,
            (StepView {
                device: now_device,
                changes: Seq::empty(),
                outcome: store_on(now_device, cursor, out, wanted, payloads, at),
            }),
            after,
        ),
    decreases wanted.len() - at,
{
    if at < wanted.len() && !is_stored_form(wanted[at], payloads[at]) {
        lemma_store_on(
            device,
            world,
            offset,
            len,
            now_device,
            after,
            cursor,
            out,
            wanted,
            payloads,
            at + 1,
        );
    }
}

proof fn lemma_probe_on(
    device: DeviceView,
    world: World,
    offset: int,
    len: int,
    now_device: DeviceView,
    after: World,
    cursor: int,
    out: Seq<u8>,
    next: u64,
    end: u64,
    wanted: Seq<StoredView>,
)
    requires
        cursor == offset + len,
        same_objects(device, now_device),
        same_content(device, world, now_device, after),
        backed(device, world) ==> backed(now_device, after),
        own_files_agree(device, world) ==> own_files_agree(now_device, after),
        is_read(device, world, offset, out, len),
        wanted_ok(now_device, after, wanted, 0, next as int),
    ensures
        ({
            let (last, outcome) = probe_on(now_device, cursor, out, next, end, wanted);
            read_state(
                device,
                world,
                offset,
                len,
                (StepView { device: last, changes: Seq::empty(), outcome }),
                after,
            )
        }),
    decreases end - next,
{
    lemma_entry_index(now_device.manifest.objects, next);
    let goes_on = dirty_at(now_device.store.dirty, next) is Some || match entry_index(
        now_device.manifest.objects,
        next,
    ) {
        None => false,
        Some(i) => now_device.manifest.objects[i].zero || stored_place(
            now_device.manifest.objects[i],
        ) is Err,
    };
    if next < end && goes_on {
        lemma_probe_on(
            device,
            world,
            offset,
            len,
            now_device,
            after,
            cursor,
            out,
            (next + 1) as u64,
            end,
            wanted,
        );
    } else {
        let (last, outcome) = probe_on(now_device, cursor, out, next, end, wanted);
        lemma_same_objects_same_content(now_device, last, after);
    }
}

proof fn lemma_read_ahead(
    device: DeviceView,
    world: World,
    offset: int,
    len: int,
    now_device: DeviceView,
    after: World,
    cursor: int,
    out: Seq<u8>,
)
    requires
        cursor == offset + len,
        same_objects(device, now_device),
        same_content(device, world, now_device, after),
        backed(device, world) ==> backed(now_device, after),
        own_files_agree(device, world) ==> own_files_agree(now_device, after),
        is_read(device, world, offset, out, len),
    ensures
        ({
            let (last, outcome) = read_ahead(now_device, cursor, out);
            read_state(
                device,
                world,
                offset,
                len,
                (StepView { device: last, changes: Seq::empty(), outcome }),
                after,
            )
        }),
{
    if cursor < now_device.map.device_size && place_at(now_device, cursor) == 0 {
        let next = object_at(now_device, cursor);
        let end = if next + now_device.read_ahead_objects <= u64::MAX {
            (next + now_device.read_ahead_objects) as u64
        } else {
            u64::MAX
        };
        lemma_probe_on(
            device,
            world,
            offset,
            len,
            now_device,
            after,
            cursor,
            out,
            next,
            end,
            Seq::empty(),
        );
    }
}

proof fn lemma_read_on(
    device: DeviceView,
    world: World,
    offset: int,
    len: int,
    now_device: DeviceView,
    after: World,
    cursor: int,
    remaining: int,
    out: Seq<u8>,
)
    requires
        object_size(device) > 0,
        0 <= offset,
        0 <= remaining <= len,
        cursor == offset + len - remaining,
        rows_apart(now_device.store.dirty, now_device.store.cache_dir),
        same_objects(device, now_device),
        same_content(device, world, now_device, after),
        backed(device, world) ==> backed(now_device, after),
        own_files_agree(device, world) ==> own_files_agree(now_device, after),
        is_read(device, world, offset, out, len - remaining),
    ensures
        ({
            let (last, outcome) = read_on(now_device, cursor, remaining, out);
            read_state(
                device,
                world,
                offset,
                len,
                (StepView { device: last, changes: Seq::empty(), outcome }),
                after,
            )
        }),
    decreases remaining,
{
    if remaining == 0 {
        lemma_read_ahead(device, world, offset, len, now_device, after, cursor, out);
    } else {
        let object_id = object_at(now_device, cursor);
        let span = span_at(now_device, cursor, remaining);
        let place = place_at(now_device, cursor);
        lemma_object_started(now_device, after, object_id);
        lemma_span(now_device, cursor, remaining);
        match object_started(now_device, object_id) {
            ObjectOutcomeView::Read { bytes } => {
                assert(object_content(now_device, after, object_id) == object_content(
                    device,
                    world,
                    object_id,
                ));
                lemma_read_piece(device, world, offset, out, len - remaining, span, bytes);
                lemma_read_on(
                    device,
                    world,
                    offset,
                    len,
                    now_device,
                    after,
                    cursor + span,
                    remaining - span,
                    out + bytes.subrange(place, place + span),
                );
            },
            _ => {
                assert(object_content(now_device, after, object_id) == object_content(
                    device,
                    world,
                    object_id,
                ));
                assert(object_at(device, cursor) == object_id);
                assert(object_started(now_device, object_id) is Refused ==> device_byte(
                    device,
                    world,
                    cursor,
                ) is None);
            },
        }
    }
}

proof fn lemma_object_of_read_resumed(
    device: DeviceView,
    world: World,
    offset: int,
    len: int,
    step: StepView,
    before: World,
    reply: ReplyView,
    now: Seq<char>,
    after: World,
)
    requires
        object_size(device) > 0,
        0 <= offset,
        0 <= len,
        rows_apart(device.store.dirty, device.store.cache_dir),
        read_state(device, world, offset, len, step, before),
        step.outcome matches OutcomeView::Wait { action, .. } && answered(
            before,
            action,
            reply,
            after,
        ),
        !(reply is Failed),
        step.outcome->Wait_op matches OpView::Read { stage, .. } && stage is Object,
    ensures
        read_state(
            device,
            world,
            offset,
            len,
            resumed(step.device, step.outcome->Wait_op, reply, now),
            after,
        ),
{
    let d = step.device;
    let action = step.outcome->Wait_action;
    match step.outcome->Wait_op {
        OpView::Read {
            cursor,
            remaining,
            out,
            stage: ReadStageView::Object { stage },
        } => {
            lemma_object_resumed(
                d,
                before,
                object_at(d, cursor),
                stage,
                action,
                reply,
                now,
                after,
            );
            lemma_span(d, cursor, remaining);
            let inner = object_resumed(d, stage, reply, now);
            match inner.outcome {
                ObjectOutcomeView::Read { bytes } => {
                    let span = span_at(d, cursor, remaining);
                    let place = place_at(d, cursor);
                    lemma_read_piece(device, world, offset, out, len - remaining, span, bytes);
                    lemma_read_on(
                        device,
                        world,
                        offset,
                        len,
                        inner.device,
                        after,
                        cursor + span,
                        remaining - span,
                        out + bytes.subrange(place, place + span),
                    );
                },
                _ => {
                    let object_id = object_at(d, cursor);
                    assert(object_content(d, before, object_id) == object_content(
                        device,
                        world,
                        object_id,
                    ));
                    assert(object_at(device, cursor) == object_id);
                    assert(inner.outcome is Refused ==> device_byte(device, world, cursor) is None);
                },
            }
        },
        _ => {},
    }
}

proof fn lemma_probe_of_read_resumed(
    device: DeviceView,
    world: World,
    offset: int,
    len: int,
    step: StepView,
    before: World,
    reply: ReplyView,
    now: Seq<char>,
    after: World,
)
    requires
        object_size(device) > 0,
        0 <= offset,
        0 <= len,
        rows_apart(device.store.dirty, device.store.cache_dir),
        read_state(device, world, offset, len, step, before),
        step.outcome matches OutcomeView::Wait { action, .. } && answered(
            before,
            action,
            reply,
            after,
        ),
        !(reply is Failed),
        step.outcome->Wait_op matches OpView::Read { stage, .. } && stage is Probing,
    ensures
        read_state(
            device,
            world,
            offset,
            len,
            resumed(step.device, step.outcome->Wait_op, reply, now),
            after,
        ),
{
    let d = step.device;
    match step.outcome->Wait_op {
        OpView::Read {
            cursor,
            remaining,
            out,
            stage: ReadStageView::Probing { next, end, wanted, object },
        } => match reply {
            ReplyView::NoFile => {
                lemma_probe_on(
                    device,
                    world,
                    offset,
                    len,
                    d,
                    after,
                    cursor,
                    out,
                    (next + 1) as u64,
                    end,
                    wanted.push(object),
                );
            },
            ReplyView::File { content } => {
                if sha256_text(content) == object.sha256 {
                    let change = crate::device::touching(d, object, now);
                    let touched = DeviceView {
                        metrics: crate::device::with_hit(d.metrics),
                        ..device_changed(d, change)
                    };
                    lemma_same_objects_same_content(d, touched, after);
                    lemma_probe_on(
                        device,
                        world,
                        offset,
                        len,
                        touched,
                        after,
                        cursor,
                        out,
                        (next + 1) as u64,
                        end,
                        wanted,
                    );
                }
            },
            _ => {},
        },
        _ => {},
    }
}

proof fn lemma_fetch_of_read_resumed(
    device: DeviceView,
    world: World,
    offset: int,
    len: int,
    step: StepView,
    before: World,
    reply: ReplyView,
    now: Seq<char>,
    after: World,
)
    requires
        object_size(device) > 0,
        0 <= offset,
        0 <= len,
        rows_apart(device.store.dirty, device.store.cache_dir),
        read_state(device, world, offset, len, step, before),
        step.outcome matches OutcomeView::Wait { action, .. } && answered(
            before,
            action,
            reply,
            after,
        ),
        !(reply is Failed),
        step.outcome->Wait_op matches OpView::Read { stage, .. } && stage is Fetching,
    ensures
        read_state(
            device,
            world,
            offset,
            len,
            resumed(step.device, step.outcome->Wait_op, reply, now),
            after,
        ),
{
    let d = step.device;
    match step.outcome->Wait_op {
        OpView::Read { cursor, remaining, out, stage: ReadStageView::Fetching { wanted } } => {
            match reply {
                ReplyView::Messages { payloads, ms } => {
                    let counted = DeviceView {
                        metrics: crate::device::with_download(d.metrics, ms),
                        ..d
                    };
                    lemma_same_objects_same_content(d, counted, after);
                    lemma_store_on(
                        device,
                        world,
                        offset,
                        len,
                        counted,
                        after,
                        cursor,
                        out,
                        wanted,
                        payloads,
                        0,
                    );
                },
                _ => {},
            }
        },
        _ => {},
    }
}

proof fn lemma_store_of_read_resumed(
    device: DeviceView,
    world: World,
    offset: int,
    len: int,
    step: StepView,
    before: World,
    reply: ReplyView,
    now: Seq<char>,
    after: World,
)
    requires
        object_size(device) > 0,
        0 <= offset,
        0 <= len,
        rows_apart(device.store.dirty, device.store.cache_dir),
        read_state(device, world, offset, len, step, before),
        step.outcome matches OutcomeView::Wait { action, .. } && answered(
            before,
            action,
            reply,
            after,
        ),
        !(reply is Failed),
        step.outcome->Wait_op matches OpView::Read { stage, .. } && stage is Storing,
    ensures
        read_state(
            device,
            world,
            offset,
            len,
            resumed(step.device, step.outcome->Wait_op, reply, now),
            after,
        ),
{
    let d = step.device;
    match step.outcome->Wait_op {
        OpView::Read {
            cursor,
            remaining,
            out,
            stage: ReadStageView::Storing { wanted, payloads, at },
        } => match reply {
            ReplyView::Done => {
                let object = wanted[at];
                let bytes = payloads[at]->0;
                lemma_caching_keeps_content(d, before, object, bytes);
                let change = crate::device::saving(
                    d,
                    object.object_id,
                    object.generation,
                    bytes,
                    false,
                    now,
                );
                let saved = device_changed(d, change);
                lemma_same_objects_same_content(d, saved, after);
                assert forall|k: int| at + 1 <= k < wanted.len() implies is_place(
                    saved,
                    #[trigger] wanted[k],
                ) && !after.files.dom().contains(path_of(saved, wanted[k])) && wanted[k].object_id
                    < u64::MAX + 1 by {
                    assert(wanted[at].object_id != wanted[k].object_id);
                    if path_of(d, wanted[k]) == path_of(d, object) {
                        law_object_paths_are_distinct(
                            d.store.cache_dir,
                            wanted[k].object_id,
                            wanted[k].generation,
                            object.object_id,
                            object.generation,
                        );
                    }
                }
                lemma_store_on(
                    device,
                    world,
                    offset,
                    len,
                    saved,
                    after,
                    cursor,
                    out,
                    wanted,
                    payloads,
                    at + 1,
                );
            },
            _ => {},
        },
        _ => {},
    }
}

proof fn lemma_read_resumed(
    device: DeviceView,
    world: World,
    offset: int,
    len: int,
    step: StepView,
    before: World,
    reply: ReplyView,
    now: Seq<char>,
    after: World,
)
    requires
        object_size(device) > 0,
        0 <= offset,
        0 <= len,
        rows_apart(device.store.dirty, device.store.cache_dir),
        read_state(device, world, offset, len, step, before),
        step.outcome matches OutcomeView::Wait { action, .. } && answered(
            before,
            action,
            reply,
            after,
        ),
    ensures
        ({
            let next = resumed(step.device, step.outcome->Wait_op, reply, now);
            read_state(device, world, offset, len, next, after) || (reply is Failed && read_broken(
                device,
                world,
                next,
                after,
            ))
        }),
{
    if reply is Failed {
        lemma_failure_keeps_content(device, world, step.device, before, after);
    } else {
        match step.outcome->Wait_op {
            OpView::Read { stage, .. } => match stage {
                ReadStageView::Object { .. } => {
                    lemma_object_of_read_resumed(
                        device,
                        world,
                        offset,
                        len,
                        step,
                        before,
                        reply,
                        now,
                        after,
                    );
                },
                ReadStageView::Probing { .. } => {
                    lemma_probe_of_read_resumed(
                        device,
                        world,
                        offset,
                        len,
                        step,
                        before,
                        reply,
                        now,
                        after,
                    );
                },
                ReadStageView::Fetching { .. } => {
                    lemma_fetch_of_read_resumed(
                        device,
                        world,
                        offset,
                        len,
                        step,
                        before,
                        reply,
                        now,
                        after,
                    );
                },
                ReadStageView::Storing { .. } => {
                    lemma_store_of_read_resumed(
                        device,
                        world,
                        offset,
                        len,
                        step,
                        before,
                        reply,
                        now,
                        after,
                    );
                },
            },
            _ => {},
        }
    }
}

proof fn lemma_read_leads(
    device: DeviceView,
    world: World,
    offset: int,
    len: int,
    step: StepView,
    before: World,
    events: Seq<Event>,
    last: StepView,
    after: World,
)
    requires
        object_size(device) > 0,
        0 <= offset,
        0 <= len,
        rows_apart(device.store.dirty, device.store.cache_dir),
        read_state(device, world, offset, len, step, before),
        leads_to(step, before, events, last, after),
    ensures
        read_state(device, world, offset, len, last, after) || (events.len() > 0
            && events.last().reply is Failed && read_broken(device, world, last, after)),
    decreases events.len(),
{
    if events.len() > 0 {
        let event = events[0];
        lemma_read_resumed(
            device,
            world,
            offset,
            len,
            step,
            before,
            event.reply,
            event.now,
            event.world,
        );
        let next = resumed(step.device, step.outcome->Wait_op, event.reply, event.now);
        let rest = events.skip(1);
        if rest.len() > 0 {
            assert(rest.last() == events.last());
        }
        if next.outcome is Refused {
            reveal_with_fuel(leads_to, 2);
            assert(rest.len() == 0);
        } else {
            lemma_read_leads(
                device,
                world,
                offset,
                len,
                next,
                event.world,
                rest,
                last,
                after,
            );
        }
    }
}

/// A read that finishes hands back exactly the bytes that the device holds. It is refused
/// only where it reaches beyond the device, the outside work that it asked for last failed,
/// or one of its bytes cannot be read. Whatever came of it, the device holds what it held before, the same
/// objects are dirty, and what could be read without the cache still can.
pub proof fn law_read_returns_content(
    device: DeviceView,
    world: World,
    offset: int,
    len: int,
    events: Seq<Event>,
    last: StepView,
    after: World,
)
    requires
        object_size(device) > 0,
        0 <= offset,
        0 <= len,
        rows_apart(device.store.dirty, device.store.cache_dir),
        leads_to(read_started(device, offset, len), world, events, last, after),
    ensures
        last.outcome matches OutcomeView::Finished { bytes } ==> is_read(
            device,
            world,
            offset,
            bytes,
            len,
        ),
        last.outcome matches OutcomeView::Refused { error } ==> outside_failed(events, error) || (
        error == DeviceError::ReadOutOfBounds && offset + len > device.map.device_size)
            || unreadable(device, world, offset, len),
        keeps_content(device, world, last.device, after),
        same_objects(device, last.device),
        last.device.store.dirty == device.store.dirty,
        last.device.manifest == device.manifest,
        last.device.map == device.map,
        rows_apart(last.device.store.dirty, last.device.store.cache_dir),
        backed(device, world) ==> backed(last.device, after),
        own_files_agree(device, world) ==> own_files_agree(last.device, after),
{
    let first = read_started(device, offset, len);
    if offset + len <= device.map.device_size {
        lemma_read_on(device, world, offset, len, device, world, offset, len, Seq::empty());
    }
    lemma_read_leads(device, world, offset, len, first, world, events, last, after);
}

proof fn lemma_probe_on_keeps_store(
    device: DeviceView,
    cursor: int,
    out: Seq<u8>,
    next: u64,
    end: u64,
    wanted: Seq<StoredView>,
)
    ensures
        probe_on(device, cursor, out, next, end, wanted).0.store == device.store,
    decreases end - next,
{
    if next < end {
        lemma_probe_on_keeps_store(device, cursor, out, (next + 1) as u64, end, wanted);
    }
}

proof fn lemma_read_on_keeps_store(device: DeviceView, cursor: int, remaining: int, out: Seq<u8>)
    ensures
        read_on(device, cursor, remaining, out).0.store == device.store,
    decreases remaining,
{
    if remaining <= 0 || object_size(device) <= 0 {
        if cursor < device.map.device_size && place_at(device, cursor) == 0 {
            let next = object_at(device, cursor);
            let end = if next + device.read_ahead_objects <= u64::MAX {
                (next + device.read_ahead_objects) as u64
            } else {
                u64::MAX
            };
            lemma_probe_on_keeps_store(device, cursor, out, next, end, Seq::empty());
        }
    } else {
        let place = place_at(device, cursor);
        let span = span_at(device, cursor, remaining);
        match object_started(device, object_at(device, cursor)) {
            ObjectOutcomeView::Read { bytes } => {
                if span > 0 {
                    lemma_read_on_keeps_store(
                        device,
                        cursor + span,
                        remaining - span,
                        out + bytes.subrange(place, place + span),
                    );
                }
            },
            _ => {},
        }
    }
}

/// The tables never fall behind: what a step does to the index in memory is what its row
/// operations do to the tables, and the first step of a request does nothing to either.
pub proof fn law_tables_follow_the_index(
    device: DeviceView,
    op: OpView,
    reply: ReplyView,
    now: Seq<char>,
    offset: int,
    len: int,
    input: Seq<u8>,
)
    ensures
        ({
            let step = resumed(device, op, reply, now);
            step.device.store == changed_by(device.store, step.changes)
        }),
        read_started(device, offset, len).device.store == device.store,
        read_started(device, offset, len).changes.len() == 0,
        write_started(device, offset, input).device.store == device.store,
        write_started(device, offset, input).changes.len() == 0,
        flush_started(device).device.store == device.store,
        flush_started(device).changes.len() == 0,
{
    lemma_read_on_keeps_store(device, offset, len, Seq::empty());
    match op {
        OpView::Read { cursor, remaining, out, stage } => {
            lemma_read_step_keeps_tables(device, cursor, remaining, out, stage, reply, now);
        },
        OpView::Write { cursor, input: rest, at, stage } => {
            lemma_write_step_keeps_tables(device, cursor, rest, at, stage, reply, now);
        },
        OpView::Flush { rows, at, stage } => {
            lemma_flush_step_keeps_tables(device, rows, at, stage, reply, now);
        },
    }
}

proof fn lemma_write_step_keeps_tables(
    device: DeviceView,
    cursor: int,
    input: Seq<u8>,
    at: int,
    stage: WriteStageView,
    reply: ReplyView,
    now: Seq<char>,
)
    ensures
        ({
            let step = write_resumed(device, cursor, input, at, stage, reply, now);
            step.device.store == changed_by(device.store, step.changes)
        }),
{
    match stage {
        WriteStageView::Reading { stage } => {
            lemma_object_step_keeps_tables(device, stage, reply, now);
        },
        _ => {},
    }
}

proof fn lemma_flush_step_keeps_tables(
    device: DeviceView,
    rows: Seq<DirtyView>,
    at: int,
    stage: FlushStageView,
    reply: ReplyView,
    now: Seq<char>,
)
    ensures
        ({
            let step = flush_resumed(device, rows, at, stage, reply, now);
            step.device.store == changed_by(device.store, step.changes)
        }),
{
    let step = flush_resumed(device, rows, at, stage, reply, now);
    if step.changes.len() == 2 {
        lemma_changed_by_two(device.store, step.changes[0], step.changes[1]);
        assert(step.changes =~= seq![step.changes[0], step.changes[1]]);
    }
}

proof fn lemma_object_step_keeps_tables(
    device: DeviceView,
    stage: ObjectStageView,
    reply: ReplyView,
    now: Seq<char>,
)
    ensures
        ({
            let step = object_resumed(device, stage, reply, now);
            step.device.store == changed_by(device.store, step.changes)
        }),
{
    let step = object_resumed(device, stage, reply, now);
    if step.changes.len() == 1 {
        lemma_changed_by_one(device.store, step.changes[0]);
        assert(step.changes =~= seq![step.changes[0]]);
    }
}

proof fn lemma_read_step_keeps_tables(
    device: DeviceView,
    cursor: int,
    remaining: int,
    out: Seq<u8>,
    stage: ReadStageView,
    reply: ReplyView,
    now: Seq<char>,
)
    ensures
        ({
            let step = read_resumed(device, cursor, remaining, out, stage, reply, now);
            step.device.store == changed_by(device.store, step.changes)
        }),
{
    match stage {
        ReadStageView::Object { stage } => {
            lemma_object_step_keeps_tables(device, stage, reply, now);
            let inner = object_resumed(device, stage, reply, now);
            let place = place_at(device, cursor);
            let span = span_at(device, cursor, remaining);
            match inner.outcome {
                ObjectOutcomeView::Read { bytes } => {
                    lemma_read_on_keeps_store(
                        inner.device,
                        cursor + span,
                        remaining - span,
                        out + bytes.subrange(place, place + span),
                    );
                },
                _ => {},
            }
        },
        ReadStageView::Probing { next, end, wanted, object } => {
            let bound = (next + 1) as u64;
            let change = crate::device::touching(device, object, now);
            let after = DeviceView {
                metrics: crate::device::with_hit(device.metrics),
                ..device_changed(device, change)
            };
            lemma_probe_on_keeps_store(device, cursor, out, bound, end, wanted.push(object));
            lemma_probe_on_keeps_store(after, cursor, out, bound, end, wanted);
            lemma_changed_by_one(device.store, change);
        },
        ReadStageView::Storing { wanted, payloads, at } => {
            let change = crate::device::saving(
                device,
                wanted[at].object_id,
                wanted[at].generation,
                payloads[at]->0,
                false,
                now,
            );
            lemma_changed_by_one(device.store, change);
        },
        _ => {},
    }
}

} // verus!
