//! What reads leave in the cache.
use vstd::prelude::*;

use crate::cache::{dirty_at, law_object_paths_are_distinct};
use crate::device::{
    is_stored_form, message_ids, object_at, object_size, place_at, probe_on, read_on,
    read_started, resumed, span_at, store_on, stored_place, ActionView, DeviceView,
    ObjectOutcomeView, ObjectStageView, OpView, OutcomeView, ReadStageView, ReplyView, StepView,
    StoredView,
};
use crate::device_laws::{
    answered, leads_to, lemma_positions, lemma_span, message_at, path_of, same_settings, Event,
    World,
};
use crate::digest::sha256_text;
use crate::manifest::{entry_index, lemma_entry_index};
use crate::progress_laws::is_undisturbed;

verus! {

/// Where the remote copy of a clean object that was written lies.
pub open spec fn copy_of(device: DeviceView, object_id: u64) -> Option<StoredView> {
    match entry_index(device.manifest.objects, object_id) {
        Some(i) => {
            let entry = device.manifest.objects[i];
            if dirty_at(device.store.dirty, object_id) is None && !entry.zero && entry.remote
                is Some && entry.sha256 is Some {
                Some(
                    StoredView {
                        object_id,
                        generation: entry.generation,
                        sha256: entry.sha256->0,
                        remote: entry.remote->0,
                    },
                )
            } else {
                None
            }
        },
        None => None,
    }
}

/// Every cache file of a clean object has the recorded digest.
pub open spec fn is_undamaged(device: DeviceView, world: World) -> bool {
    forall|object_id: u64|
        (#[trigger] copy_of(device, object_id)) matches Some(object) ==> (
        world.files.dom().contains(path_of(device, object)) ==> sha256_text(
            world.files[path_of(device, object)],
        ) == object.sha256)
}

/// The object has a cache file, or needs none.
pub open spec fn is_cached(device: DeviceView, world: World, object_id: u64) -> bool {
    copy_of(device, object_id) matches Some(object) ==> world.files.dom().contains(
        path_of(device, object),
    )
}

/// The read has come to an object behind which it looks ahead.
pub open spec fn looks_ahead(device: DeviceView, end: int) -> bool {
    end < device.map.device_size && end % (device.map.object_size as int) == 0
}

/// The object is one of those that a read which ends at `end` looks at ahead: there are not
/// more in front of it than the device looks at, and none of them is missing.
pub open spec fn is_ahead(device: DeviceView, end: int, target: u64) -> bool {
    let first = end / (device.map.object_size as int);
    &&& looks_ahead(device, end)
    &&& first <= target < first + device.read_ahead_objects
    &&& target < u64::MAX
    &&& forall|id: u64|
        first <= id <= target ==> (#[trigger] entry_index(device.manifest.objects, id)) is Some
}

/// The message of the object is there, with the recorded digest, and is its stored form.
pub open spec fn can_be_fetched(device: DeviceView, world: World, target: u64) -> bool {
    copy_of(device, target) matches Some(object) ==> is_stored_form(
        object,
        message_at(world, object.remote.message_id),
    )
}

/// The object is cached, or one of those wanted from position `at` on.
spec fn is_settled(
    device: DeviceView,
    world: World,
    target: u64,
    wanted: Seq<StoredView>,
    at: int,
) -> bool {
    is_cached(device, world, target) || exists|k: int|
        at <= k < wanted.len() && #[trigger] wanted[k] == copy_of(device, target)->0
}

/// What holds of a read of the bytes up to `end` that began with `device`, of a byte at
/// `position` and of the object `target` ahead.
spec fn caching(
    device: DeviceView,
    messages: Map<i32, Seq<u8>>,
    end: int,
    position: int,
    target: u64,
    step: StepView,
    world: World,
) -> bool {
    let d = step.device;
    let seen = is_cached(device, world, object_at(device, position));
    &&& same_settings(device, d)
    &&& d.manifest == device.manifest
    &&& d.store.dirty == device.store.dirty
    &&& d.store.cache_dir == device.store.cache_dir
    &&& world.messages == messages
    &&& is_undamaged(device, world)
    &&& match step.outcome {
        OutcomeView::Wait { op, action } => op matches OpView::Read {
            cursor,
            remaining,
            stage,
            ..
        } && {
            &&& 0 <= cursor
            &&& 0 <= remaining
            &&& cursor + remaining == end
            &&& position < cursor ==> seen
            &&& match stage {
                ReadStageView::Object { stage } => {
                    &&& remaining > 0
                    &&& object_caching(device, object_at(device, cursor), stage, action)
                },
                ReadStageView::Probing { next, end: stop, wanted, object } => {
                    &&& remaining == 0
                    &&& looks_ahead(device, end)
                    &&& next < stop
                    &&& end / object_size(device) <= next
                    &&& stop == ahead_end(device, end)
                    &&& copy_of(device, next) == Some(object)
                    &&& action == (ActionView::ReadFile { path: path_of(device, object) })
                    &&& are_copies(device, wanted)
                    &&& is_ahead(device, end, target) && target < next ==> is_settled(
                        device,
                        world,
                        target,
                        wanted,
                        0,
                    )
                },
                ReadStageView::Fetching { wanted } => {
                    &&& remaining == 0
                    &&& action == (ActionView::FetchMany { ids: message_ids(wanted) })
                    &&& are_copies(device, wanted)
                    &&& is_ahead(device, end, target) ==> is_settled(
                        device,
                        world,
                        target,
                        wanted,
                        0,
                    )
                },
                ReadStageView::Storing { wanted, payloads, at } => {
                    &&& remaining == 0
                    &&& 0 <= at < wanted.len()
                    &&& at < payloads.len()
                    &&& are_copies(device, wanted)
                    &&& are_fetched(wanted, payloads, world)
                    &&& is_stored_form(wanted[at], payloads[at])
                    &&& action == (ActionView::WriteFile {
                        path: path_of(device, wanted[at]),
                        bytes: payloads[at]->0,
                    })
                    &&& is_ahead(device, end, target) && can_be_fetched(device, world, target)
                        ==> is_settled(device, world, target, wanted, at)
                },
            }
        },
        OutcomeView::Finished { .. } => {
            &&& position < end ==> seen
            &&& is_ahead(device, end, target) && can_be_fetched(device, world, target)
                ==> is_cached(device, world, target)
        },
        OutcomeView::Refused { .. } => true,
    }
}

/// Where looking ahead ends.
spec fn ahead_end(device: DeviceView, end: int) -> int {
    let stop = end / object_size(device) + device.read_ahead_objects;
    if stop <= u64::MAX {
        stop
    } else {
        u64::MAX as int
    }
}

/// All of them are copies of clean objects.
spec fn are_copies(device: DeviceView, wanted: Seq<StoredView>) -> bool {
    forall|k: int|
        0 <= k < wanted.len() ==> copy_of(device, (#[trigger] wanted[k]).object_id) == Some(
            wanted[k],
        )
}

/// The payloads are the messages of the wanted objects.
spec fn are_fetched(
    wanted: Seq<StoredView>,
    payloads: Seq<Option<Seq<u8>>>,
    world: World,
) -> bool {
    &&& payloads.len() == wanted.len()
    &&& forall|k: int|
        0 <= k < wanted.len() ==> #[trigger] payloads[k] == message_at(
            world,
            wanted[k].remote.message_id,
        )
}

/// The stage of an object that is being read.
spec fn object_caching(
    device: DeviceView,
    object_id: u64,
    stage: ObjectStageView,
    action: ActionView,
) -> bool {
    match stage {
        ObjectStageView::Dirty { row } => dirty_at(device.store.dirty, object_id) is Some
            && action is ReadFile,
        ObjectStageView::Cached { object } => copy_of(device, object_id) == Some(object) && action
            == (ActionView::ReadFile { path: path_of(device, object) }),
        ObjectStageView::Remote { object } => copy_of(device, object_id) == Some(object) && action
            == (ActionView::Fetch { reference: object.remote }),
        ObjectStageView::Saving { object, encoded } => {
            &&& copy_of(device, object_id) == Some(object)
            &&& sha256_text(encoded) == object.sha256
            &&& action == (ActionView::WriteFile {
                path: path_of(device, object),
                bytes: encoded,
            })
        },
    }
}

/// The device differs from the one that began in nothing that counts here.
spec fn is_kept(device: DeviceView, d: DeviceView) -> bool {
    &&& same_settings(device, d)
    &&& d.manifest == device.manifest
    &&& d.store.dirty == device.store.dirty
    &&& d.store.cache_dir == device.store.cache_dir
}

/// What a clean, written object's entry says is its copy.
pub proof fn lemma_copy(device: DeviceView, object_id: u64)
    ensures
        match entry_index(device.manifest.objects, object_id) {
            Some(i) => {
                let entry = device.manifest.objects[i];
                dirty_at(device.store.dirty, object_id) is None && !entry.zero ==> match stored_place(
                    entry,
                ) {
                    Ok(object) => copy_of(device, object_id) == Some(object),
                    Err(_) => copy_of(device, object_id) is None,
                }
            },
            None => copy_of(device, object_id) is None,
        },
{
    lemma_entry_index(device.manifest.objects, object_id);
}

/// Saving a copy to its own file damages no other.
proof fn lemma_saved(device: DeviceView, world: World, object: StoredView, bytes: Seq<u8>)
    requires
        is_undamaged(device, world),
        copy_of(device, object.object_id) == Some(object),
        sha256_text(bytes) == object.sha256,
    ensures
        is_undamaged(
            device,
            (World { files: world.files.insert(path_of(device, object), bytes), ..world }),
        ),
{
    let after = World { files: world.files.insert(path_of(device, object), bytes), ..world };
    assert forall|id: u64| (#[trigger] copy_of(device, id)) is Some && after.files.dom().contains(
        path_of(device, copy_of(device, id)->0),
    ) implies sha256_text(after.files[path_of(device, copy_of(device, id)->0)]) == copy_of(
        device,
        id,
    )->0.sha256 by {
        let other = copy_of(device, id)->0;
        if path_of(device, other) == path_of(device, object) {
            law_object_paths_are_distinct(
                device.store.cache_dir,
                object.object_id,
                object.generation,
                id,
                other.generation,
            );
        }
    }
}

proof fn lemma_probe_caches(
    device: DeviceView,
    d: DeviceView,
    end: int,
    position: int,
    target: u64,
    world: World,
    out: Seq<u8>,
    next: u64,
    stop: u64,
    wanted: Seq<StoredView>,
)
    requires
        object_size(device) > 0,
        0 <= end,
        is_kept(device, d),
        is_undamaged(device, world),
        are_copies(device, wanted),
        looks_ahead(device, end),
        end / object_size(device) <= next,
        stop == ahead_end(device, end),
        position < end ==> is_cached(device, world, object_at(device, position)),
        is_ahead(device, end, target) && target < next ==> is_settled(
            device,
            world,
            target,
            wanted,
            0,
        ),
    ensures
        ({
            let (after, outcome) = probe_on(d, end, out, next, stop, wanted);
            caching(
                device,
                world.messages,
                end,
                position,
                target,
                StepView { device: after, changes: Seq::empty(), outcome },
                world,
            )
        }),
    decreases stop - next,
{
    if next < stop {
        lemma_copy(device, next);
        if dirty_at(d.store.dirty, next) is Some {
            lemma_probe_caches(
                device,
                d,
                end,
                position,
                target,
                world,
                out,
                (next + 1) as u64,
                stop,
                wanted,
            );
        } else {
            match entry_index(d.manifest.objects, next) {
                None => {},
                Some(i) => {
                    let entry = d.manifest.objects[i];
                    match stored_place(entry) {
                        Ok(object) if !entry.zero => {},
                        _ => {
                            lemma_probe_caches(
                                device,
                                d,
                                end,
                                position,
                                target,
                                world,
                                out,
                                (next + 1) as u64,
                                stop,
                                wanted,
                            );
                        },
                    }
                },
            }
        }
    }
}

proof fn lemma_store_caches(
    device: DeviceView,
    d: DeviceView,
    end: int,
    position: int,
    target: u64,
    world: World,
    out: Seq<u8>,
    wanted: Seq<StoredView>,
    payloads: Seq<Option<Seq<u8>>>,
    at: int,
)
    requires
        is_kept(device, d),
        is_undamaged(device, world),
        are_copies(device, wanted),
        are_fetched(wanted, payloads, world),
        0 <= at,
        0 <= end,
        position < end ==> is_cached(device, world, object_at(device, position)),
        is_ahead(device, end, target) && can_be_fetched(device, world, target) ==> is_settled(
            device,
            world,
            target,
            wanted,
            at,
        ),
    ensures
        caching(
            device,
            world.messages,
            end,
            position,
            target,
            StepView {
                device: d,
                changes: Seq::empty(),
                outcome: store_on(d, end, out, wanted, payloads, at),
            },
            world,
        ),
    decreases wanted.len() - at,
{
    if at < wanted.len() && !is_stored_form(wanted[at], payloads[at]) {
        lemma_store_caches(
            device,
            d,
            end,
            position,
            target,
            world,
            out,
            wanted,
            payloads,
            at + 1,
        );
    }
}

proof fn lemma_read_caches(
    device: DeviceView,
    d: DeviceView,
    end: int,
    position: int,
    target: u64,
    world: World,
    cursor: int,
    remaining: int,
    out: Seq<u8>,
)
    requires
        object_size(device) > 0,
        0 <= cursor,
        0 <= remaining,
        cursor + remaining == end,
        end <= device.map.device_size,
        0 <= position,
        is_kept(device, d),
        is_undamaged(device, world),
        position < cursor ==> is_cached(device, world, object_at(device, position)),
    ensures
        ({
            let (after, outcome) = read_on(d, cursor, remaining, out);
            caching(
                device,
                world.messages,
                end,
                position,
                target,
                StepView { device: after, changes: Seq::empty(), outcome },
                world,
            )
        }),
    decreases remaining,
{
    if remaining == 0 {
        if looks_ahead(device, end) {
            let first = object_at(d, cursor);
            assert(cursor / object_size(device) <= cursor) by {
                vstd::arithmetic::div_mod::lemma_div_is_ordered_by_denominator(
                    cursor,
                    1,
                    object_size(device),
                );
                vstd::arithmetic::div_mod::lemma_div_basics(cursor);
            }
            vstd::arithmetic::div_mod::lemma_div_pos_is_pos(cursor, object_size(device));
            lemma_probe_caches(
                device,
                d,
                end,
                position,
                target,
                world,
                out,
                first,
                ahead_end(device, end) as u64,
                Seq::empty(),
            );
        }
    } else {
        let place = place_at(d, cursor);
        let span = span_at(d, cursor, remaining);
        lemma_span(d, cursor, remaining);
        let id = object_at(device, cursor);
        lemma_copy(device, id);
        match crate::device::object_started(d, id) {
            ObjectOutcomeView::Read { bytes } => {
                if cursor <= position < cursor + span {
                    lemma_positions(device, cursor, position - cursor);
                }
                lemma_read_caches(
                    device,
                    d,
                    end,
                    position,
                    target,
                    world,
                    cursor + span,
                    remaining - span,
                    out + bytes.subrange(place, place + span),
                );
            },
            _ => {},
        }
    }
}

proof fn lemma_object_caches(
    device: DeviceView,
    messages: Map<i32, Seq<u8>>,
    end: int,
    position: int,
    target: u64,
    step: StepView,
    world: World,
    event: Event,
)
    requires
        object_size(device) > 0,
        end <= device.map.device_size,
        0 <= position,
        caching(device, messages, end, position, target, step, world),
        step.outcome matches OutcomeView::Wait { op, action } && op matches OpView::Read {
            stage,
            ..
        } && stage is Object && answered(world, action, event.reply, event.world),
        !(event.reply is Failed),
    ensures
        caching(
            device,
            messages,
            end,
            position,
            target,
            resumed(step.device, step.outcome->Wait_op, event.reply, event.now),
            event.world,
        ),
{
    let d = step.device;
    match step.outcome {
        OutcomeView::Wait {
            op: OpView::Read { cursor, remaining, out, stage: ReadStageView::Object { stage } },
            action,
        } => {
            let inner = crate::device::object_resumed(d, stage, event.reply, event.now);
            let id = object_at(device, cursor);
            let place = place_at(d, cursor);
            let span = span_at(d, cursor, remaining);
            lemma_span(d, cursor, remaining);
            match stage {
                ObjectStageView::Saving { object, encoded } => {
                    lemma_saved(device, world, object, encoded);
                },
                _ => {},
            }
            match inner.outcome {
                ObjectOutcomeView::Read { bytes } => {
                    assert(is_cached(device, event.world, id));
                    if cursor <= position < cursor + span {
                        lemma_positions(device, cursor, position - cursor);
                    }
                    lemma_read_caches(
                        device,
                        inner.device,
                        end,
                        position,
                        target,
                        event.world,
                        cursor + span,
                        remaining - span,
                        out + bytes.subrange(place, place + span),
                    );
                },
                _ => {},
            }
        },
        _ => {},
    }
}

proof fn lemma_ahead_caches(
    device: DeviceView,
    messages: Map<i32, Seq<u8>>,
    end: int,
    position: int,
    target: u64,
    step: StepView,
    world: World,
    event: Event,
)
    requires
        object_size(device) > 0,
        end <= device.map.device_size,
        0 <= position,
        caching(device, messages, end, position, target, step, world),
        step.outcome matches OutcomeView::Wait { op, action } && op matches OpView::Read {
            stage,
            ..
        } && !(stage is Object) && answered(world, action, event.reply, event.world),
        !(event.reply is Failed),
    ensures
        caching(
            device,
            messages,
            end,
            position,
            target,
            resumed(step.device, step.outcome->Wait_op, event.reply, event.now),
            event.world,
        ),
{
    let d = step.device;
    let next = resumed(d, step.outcome->Wait_op, event.reply, event.now);
    match step.outcome {
        OutcomeView::Wait { op: OpView::Read { out, stage, .. }, .. } => match stage {
            ReadStageView::Probing { next: at, end: stop, wanted, object } => match event.reply {
                ReplyView::NoFile => {
                    let more = wanted.push(object);
                    assert(forall|k: int| 0 <= k < wanted.len() ==> more[k] == wanted[k]);
                    if is_ahead(device, end, target) && target <= at {
                        if target == at {
                            assert(more[wanted.len() as int] == copy_of(device, target)->0);
                        } else if !is_cached(device, world, target) {
                            let k = choose|k: int|
                                0 <= k < wanted.len() && #[trigger] wanted[k] == copy_of(
                                    device,
                                    target,
                                )->0;
                            assert(more[k] == wanted[k]);
                        }
                    }
                    lemma_probe_caches(
                        device,
                        d,
                        end,
                        position,
                        target,
                        world,
                        out,
                        (at + 1) as u64,
                        stop,
                        more,
                    );
                },
                ReplyView::File { content } => {
                    assert(sha256_text(content) == object.sha256);
                    let change = crate::device::touching(d, object, event.now);
                    let after = DeviceView {
                        metrics: crate::device::with_hit(d.metrics),
                        ..crate::device::device_changed(d, change)
                    };
                    lemma_probe_caches(
                        device,
                        after,
                        end,
                        position,
                        target,
                        world,
                        out,
                        (at + 1) as u64,
                        stop,
                        wanted,
                    );
                },
                _ => {},
            },
            ReadStageView::Fetching { wanted } => match event.reply {
                ReplyView::Messages { payloads, .. } => {
                    lemma_store_caches(
                        device,
                        next.device,
                        end,
                        position,
                        target,
                        world,
                        out,
                        wanted,
                        payloads,
                        0,
                    );
                },
                _ => {},
            },
            ReadStageView::Storing { wanted, payloads, at } => {
                let object = wanted[at];
                lemma_saved(device, world, object, payloads[at]->0);
                if is_ahead(device, end, target) && can_be_fetched(device, world, target)
                    && !is_cached(device, world, target) {
                    let k = choose|k: int|
                        at <= k < wanted.len() && #[trigger] wanted[k] == copy_of(
                            device,
                            target,
                        )->0;
                    assert(k == at ==> is_cached(device, event.world, target));
                    assert(is_settled(device, event.world, target, wanted, at + 1));
                }
                lemma_store_caches(
                    device,
                    next.device,
                    end,
                    position,
                    target,
                    event.world,
                    out,
                    wanted,
                    payloads,
                    at + 1,
                );
            },
            _ => {},
        },
        _ => {},
    }
}

proof fn lemma_leads_caches(
    device: DeviceView,
    messages: Map<i32, Seq<u8>>,
    end: int,
    position: int,
    target: u64,
    step: StepView,
    world: World,
    events: Seq<Event>,
    last: StepView,
    after: World,
)
    requires
        object_size(device) > 0,
        end <= device.map.device_size,
        0 <= position,
        caching(device, messages, end, position, target, step, world),
        leads_to(step, world, events, last, after),
        is_undisturbed(events),
    ensures
        caching(device, messages, end, position, target, last, after),
    decreases events.len(),
{
    if events.len() > 0 {
        let event = events[0];
        let rest = events.skip(1);
        let next = resumed(step.device, step.outcome->Wait_op, event.reply, event.now);
        assert(!(events[0].reply is Failed));
        assert forall|i: int| 0 <= i < rest.len() implies !((#[trigger] rest[i]).reply is Failed) by {
            assert(rest[i] == events[i + 1]);
        }
        match step.outcome {
            OutcomeView::Wait { op: OpView::Read { stage, .. }, .. } => if stage is Object {
                lemma_object_caches(
                    device,
                    messages,
                    end,
                    position,
                    target,
                    step,
                    world,
                    event,
                );
            } else {
                lemma_ahead_caches(
                    device,
                    messages,
                    end,
                    position,
                    target,
                    step,
                    world,
                    event,
                );
            },
            _ => {},
        }
        lemma_leads_caches(
            device,
            messages,
            end,
            position,
            target,
            next,
            event.world,
            rest,
            last,
            after,
        );
    }
}

/// A read that finishes, undisturbed and with no damaged cache file, leaves a cache file for
/// every clean object that it read, so that the next read of these needs no fetch; and where it
/// ends at the start of an object, also for each of the objects that follow, as far as the
/// device looks ahead and no number is missing, if its message is there and undamaged. What is
/// in the cache keeps its digest.
pub proof fn law_reads_fill_the_cache(
    device: DeviceView,
    world: World,
    offset: int,
    len: int,
    events: Seq<Event>,
    last: StepView,
    after: World,
    position: int,
    target: u64,
)
    requires
        object_size(device) > 0,
        0 <= offset,
        0 <= len,
        is_undamaged(device, world),
        leads_to(read_started(device, offset, len), world, events, last, after),
        is_undisturbed(events),
        last.outcome is Finished,
    ensures
        is_undamaged(device, after),
        offset <= position < offset + len ==> is_cached(
            device,
            after,
            object_at(device, position),
        ),
        is_ahead(device, offset + len, target) && can_be_fetched(device, world, target)
            ==> is_cached(device, after, target),
{
    let first = read_started(device, offset, len);
    let end = offset + len;
    reveal_with_fuel(leads_to, 2);
    if end <= device.map.device_size {
        let seen = if offset <= position {
            position
        } else {
            offset
        };
        lemma_read_caches(
            device,
            device,
            end,
            seen,
            target,
            world,
            offset,
            len,
            Seq::empty(),
        );
        lemma_leads_caches(
            device,
            world.messages,
            end,
            seen,
            target,
            first,
            world,
            events,
            last,
            after,
        );
    }
}

/// The file that holds an object: that of the dirty object, else that of its copy.
pub open spec fn is_own_file(device: DeviceView, object_id: u64, path: Seq<char>) -> bool {
    match dirty_at(device.store.dirty, object_id) {
        Some(row) => path == row.cache_path,
        None => copy_of(device, object_id) matches Some(object) && path == path_of(device, object),
    }
}

/// The action reads, fetches or saves this object.
pub open spec fn asks_for(device: DeviceView, object_id: u64, action: ActionView) -> bool {
    match action {
        ActionView::ReadFile { path } => is_own_file(device, object_id, path),
        ActionView::WriteFile { path, .. } => copy_of(device, object_id) matches Some(object)
            && path == path_of(device, object),
        ActionView::Fetch { reference } => copy_of(device, object_id) matches Some(object)
            && reference == object.remote,
        _ => false,
    }
}

/// The read covers a byte of the object.
pub open spec fn is_covered_by(device: DeviceView, offset: int, end: int, object_id: u64) -> bool {
    exists|position: int|
        offset <= position < end && #[trigger] object_at(device, position) == object_id
}

/// The object is within the stretch at which a read that ends at `end` looks ahead.
pub open spec fn is_within_reach(device: DeviceView, end: int, object_id: u64) -> bool {
    let first = end / (device.map.object_size as int);
    looks_ahead(device, end) && first <= object_id < first + device.read_ahead_objects
}

/// What a read of the bytes from `offset` to `end` may ask for: what it takes to read one of its
/// objects, or one within reach ahead, or the messages of some of the latter at once.
pub open spec fn may_ask(device: DeviceView, offset: int, end: int, action: ActionView) -> bool {
    ||| exists|id: u64|
        (is_covered_by(device, offset, end, id) || is_within_reach(device, end, id))
            && #[trigger] asks_for(device, id, action)
    ||| action matches ActionView::FetchMany { ids } && forall|k: int|
        0 <= k < ids.len() ==> is_message_ahead(device, end, #[trigger] ids[k])
}

/// The message is that of an object within reach ahead.
pub open spec fn is_message_ahead(device: DeviceView, end: int, message_id: i32) -> bool {
    exists|id: u64|
        is_within_reach(device, end, id) && (#[trigger] copy_of(device, id)) is Some && copy_of(
            device,
            id,
        )->0.remote.message_id == message_id
}

spec fn are_ahead(device: DeviceView, end: int, wanted: Seq<StoredView>) -> bool {
    forall|k: int|
        0 <= k < wanted.len() ==> is_within_reach(device, end, (#[trigger] wanted[k]).object_id)
            && copy_of(device, wanted[k].object_id) == Some(wanted[k])
}

/// What a read on its way waits for.
spec fn asking(device: DeviceView, offset: int, end: int, step: StepView) -> bool {
    let d = step.device;
    &&& is_kept(device, d)
    &&& step.outcome matches OutcomeView::Wait { op, action } ==> op matches OpView::Read {
        cursor,
        remaining,
        stage,
        ..
    } && {
        &&& offset <= cursor
        &&& 0 <= remaining
        &&& cursor + remaining == end
        &&& match stage {
            ReadStageView::Object { stage } => {
                &&& remaining > 0
                &&& object_asks(device, object_at(device, cursor), stage, action)
            },
            ReadStageView::Probing { next, end: stop, wanted, object } => {
                &&& remaining == 0
                &&& next < stop
                &&& is_within_reach(device, end, next)
                &&& stop == ahead_end(device, end)
                &&& copy_of(device, next) == Some(object)
                &&& action == (ActionView::ReadFile { path: path_of(device, object) })
                &&& dirty_at(device.store.dirty, next) is None
                &&& are_ahead(device, end, wanted)
            },
            ReadStageView::Fetching { wanted } => {
                &&& remaining == 0
                &&& action == (ActionView::FetchMany { ids: message_ids(wanted) })
                &&& are_ahead(device, end, wanted)
            },
            ReadStageView::Storing { wanted, payloads, at } => {
                &&& remaining == 0
                &&& 0 <= at < wanted.len()
                &&& at < payloads.len()
                &&& are_ahead(device, end, wanted)
                &&& action matches ActionView::WriteFile { path, .. } && path == path_of(
                    device,
                    wanted[at],
                )
            },
        }
    }
}

/// The stage of an object that is being read, and what it waits for.
pub open spec fn object_asks(
    device: DeviceView,
    object_id: u64,
    stage: ObjectStageView,
    action: ActionView,
) -> bool {
    match stage {
        ObjectStageView::Dirty { row } => dirty_at(device.store.dirty, object_id) == Some(row)
            && action == (ActionView::ReadFile { path: row.cache_path }),
        ObjectStageView::Cached { object } => copy_of(device, object_id) == Some(object) && action
            == (ActionView::ReadFile { path: path_of(device, object) }),
        ObjectStageView::Remote { object } => copy_of(device, object_id) == Some(object) && action
            == (ActionView::Fetch { reference: object.remote }),
        ObjectStageView::Saving { object, encoded } => {
            &&& copy_of(device, object_id) == Some(object)
            &&& action == (ActionView::WriteFile {
                path: path_of(device, object),
                bytes: encoded,
            })
        },
    }
}

/// An object that is begun to be read waits for what it should.
pub proof fn lemma_object_asks_first(device: DeviceView, d: DeviceView, object_id: u64)
    requires
        same_settings(device, d),
        d.manifest == device.manifest,
        dirty_at(d.store.dirty, object_id) == dirty_at(device.store.dirty, object_id),
        d.store.cache_dir == device.store.cache_dir,
    ensures
        crate::device::object_started(d, object_id) matches ObjectOutcomeView::Wait {
            stage,
            action,
        } ==> object_asks(device, object_id, stage, action),
{
    lemma_copy(device, object_id);
}

/// An object that is read on waits for what it should.
pub proof fn lemma_object_asks_on(
    device: DeviceView,
    d: DeviceView,
    object_id: u64,
    stage: ObjectStageView,
    action: ActionView,
    reply: ReplyView,
    now: Seq<char>,
)
    requires
        d.store.cache_dir == device.store.cache_dir,
        object_asks(device, object_id, stage, action),
    ensures
        ({
            let inner = crate::device::object_resumed(d, stage, reply, now);
            &&& inner.outcome matches ObjectOutcomeView::Wait { stage, action } ==> object_asks(
                device,
                object_id,
                stage,
                action,
            )
            &&& same_settings(d, inner.device)
            &&& inner.device.manifest == d.manifest
            &&& inner.device.store.dirty == d.store.dirty
            &&& inner.device.store.cache_dir == d.store.cache_dir
        }),
{
}

proof fn lemma_probe_asks(
    device: DeviceView,
    offset: int,
    end: int,
    d: DeviceView,
    out: Seq<u8>,
    next: u64,
    stop: u64,
    wanted: Seq<StoredView>,
)
    requires
        object_size(device) > 0,
        offset <= end,
        is_kept(device, d),
        looks_ahead(device, end),
        end / object_size(device) <= next,
        stop == ahead_end(device, end),
        are_ahead(device, end, wanted),
    ensures
        ({
            let (after, outcome) = probe_on(d, end, out, next, stop, wanted);
            asking(
                device,
                offset,
                end,
                StepView { device: after, changes: Seq::empty(), outcome },
            )
        }),
    decreases stop - next,
{
    if next < stop {
        lemma_copy(device, next);
        if dirty_at(d.store.dirty, next) is Some {
            lemma_probe_asks(device, offset, end, d, out, (next + 1) as u64, stop, wanted);
        } else {
            match entry_index(d.manifest.objects, next) {
                None => {},
                Some(i) => {
                    let entry = d.manifest.objects[i];
                    match stored_place(entry) {
                        Ok(object) if !entry.zero => {},
                        _ => {
                            lemma_probe_asks(
                                device,
                                offset,
                                end,
                                d,
                                out,
                                (next + 1) as u64,
                                stop,
                                wanted,
                            );
                        },
                    }
                },
            }
        }
    }
}

proof fn lemma_store_asks(
    device: DeviceView,
    offset: int,
    end: int,
    d: DeviceView,
    out: Seq<u8>,
    wanted: Seq<StoredView>,
    payloads: Seq<Option<Seq<u8>>>,
    at: int,
)
    requires
        offset <= end,
        is_kept(device, d),
        are_ahead(device, end, wanted),
        0 <= at,
    ensures
        asking(
            device,
            offset,
            end,
            StepView {
                device: d,
                changes: Seq::empty(),
                outcome: store_on(d, end, out, wanted, payloads, at),
            },
        ),
    decreases wanted.len() - at,
{
    if at < wanted.len() && at < payloads.len() && !is_stored_form(wanted[at], payloads[at]) {
        lemma_store_asks(device, offset, end, d, out, wanted, payloads, at + 1);
    }
}

proof fn lemma_read_asks(
    device: DeviceView,
    offset: int,
    end: int,
    d: DeviceView,
    cursor: int,
    remaining: int,
    out: Seq<u8>,
)
    requires
        object_size(device) > 0,
        0 <= offset <= cursor,
        0 <= remaining,
        cursor + remaining == end,
        end <= device.map.device_size,
        is_kept(device, d),
    ensures
        ({
            let (after, outcome) = read_on(d, cursor, remaining, out);
            asking(
                device,
                offset,
                end,
                StepView { device: after, changes: Seq::empty(), outcome },
            )
        }),
    decreases remaining,
{
    if remaining == 0 {
        if looks_ahead(device, end) {
            assert(cursor / object_size(device) <= cursor) by {
                vstd::arithmetic::div_mod::lemma_div_is_ordered_by_denominator(
                    cursor,
                    1,
                    object_size(device),
                );
                vstd::arithmetic::div_mod::lemma_div_basics(cursor);
            }
            vstd::arithmetic::div_mod::lemma_div_pos_is_pos(cursor, object_size(device));
            lemma_probe_asks(
                device,
                offset,
                end,
                d,
                out,
                object_at(d, cursor),
                ahead_end(device, end) as u64,
                Seq::empty(),
            );
        }
    } else {
        let place = place_at(d, cursor);
        let span = span_at(d, cursor, remaining);
        lemma_span(d, cursor, remaining);
        lemma_object_asks_first(device, d, object_at(device, cursor));
        match crate::device::object_started(d, object_at(d, cursor)) {
            ObjectOutcomeView::Read { bytes } => {
                lemma_read_asks(
                    device,
                    offset,
                    end,
                    d,
                    cursor + span,
                    remaining - span,
                    out + bytes.subrange(place, place + span),
                );
            },
            _ => {},
        }
    }
}

proof fn lemma_asks_on(device: DeviceView, offset: int, end: int, step: StepView, event: Event)
    requires
        object_size(device) > 0,
        0 <= offset,
        end <= device.map.device_size,
        asking(device, offset, end, step),
        step.outcome is Wait,
    ensures
        asking(
            device,
            offset,
            end,
            resumed(step.device, step.outcome->Wait_op, event.reply, event.now),
        ),
{
    let d = step.device;
    let next = resumed(d, step.outcome->Wait_op, event.reply, event.now);
    match step.outcome {
        OutcomeView::Wait { op: OpView::Read { cursor, remaining, out, stage }, action } => {
            match stage {
                ReadStageView::Object { stage } => {
                    let id = object_at(device, cursor);
                    let inner = crate::device::object_resumed(d, stage, event.reply, event.now);
                    lemma_object_asks_on(device, d, id, stage, action, event.reply, event.now);
                    let place = place_at(d, cursor);
                    let span = span_at(d, cursor, remaining);
                    lemma_span(d, cursor, remaining);
                    match inner.outcome {
                        ObjectOutcomeView::Read { bytes } => {
                            lemma_read_asks(
                                device,
                                offset,
                                end,
                                inner.device,
                                cursor + span,
                                remaining - span,
                                out + bytes.subrange(place, place + span),
                            );
                        },
                        _ => {},
                    }
                },
                ReadStageView::Probing { next: at, end: stop, wanted, object } => match event.reply {
                    ReplyView::NoFile => {
                        lemma_probe_asks(
                            device,
                            offset,
                            end,
                            d,
                            out,
                            (at + 1) as u64,
                            stop,
                            wanted.push(object),
                        );
                    },
                    ReplyView::File { content } => {
                        let change = crate::device::touching(d, object, event.now);
                        let after = DeviceView {
                            metrics: crate::device::with_hit(d.metrics),
                            ..crate::device::device_changed(d, change)
                        };
                        lemma_probe_asks(
                            device,
                            offset,
                            end,
                            after,
                            out,
                            (at + 1) as u64,
                            stop,
                            wanted,
                        );
                    },
                    _ => {},
                },
                ReadStageView::Fetching { wanted } => match event.reply {
                    ReplyView::Messages { payloads, .. } => {
                        lemma_store_asks(
                            device,
                            offset,
                            end,
                            next.device,
                            out,
                            wanted,
                            payloads,
                            0,
                        );
                    },
                    _ => {},
                },
                ReadStageView::Storing { wanted, payloads, at } => {
                    lemma_store_asks(
                        device,
                        offset,
                        end,
                        next.device,
                        out,
                        wanted,
                        payloads,
                        at + 1,
                    );
                },
            }
        },
        _ => {},
    }
}

proof fn lemma_leads_asks(
    device: DeviceView,
    offset: int,
    end: int,
    step: StepView,
    world: World,
    events: Seq<Event>,
    last: StepView,
    after: World,
)
    requires
        object_size(device) > 0,
        0 <= offset,
        end <= device.map.device_size,
        asking(device, offset, end, step),
        leads_to(step, world, events, last, after),
    ensures
        asking(device, offset, end, last),
    decreases events.len(),
{
    if events.len() > 0 {
        let event = events[0];
        let next = resumed(step.device, step.outcome->Wait_op, event.reply, event.now);
        lemma_asks_on(device, offset, end, step, event);
        lemma_leads_asks(
            device,
            offset,
            end,
            next,
            event.world,
            events.skip(1),
            last,
            after,
        );
    }
}

/// A read asks only for what belongs to it: whatever it waits for on its way reads, fetches or
/// saves one of the objects that it covers, or, where it ends at the start of an object, one of
/// those that follow, as far as the device looks ahead.
pub proof fn law_reads_ask_only_for_their_objects(
    device: DeviceView,
    world: World,
    offset: int,
    len: int,
    events: Seq<Event>,
    last: StepView,
    after: World,
)
    requires
        object_size(device) > 0,
        0 <= offset,
        0 <= len,
        leads_to(read_started(device, offset, len), world, events, last, after),
    ensures
        last.outcome matches OutcomeView::Wait { action, .. } ==> may_ask(
            device,
            offset,
            offset + len,
            action,
        ),
{
    let first = read_started(device, offset, len);
    let end = offset + len;
    reveal_with_fuel(leads_to, 2);
    if end <= device.map.device_size {
        lemma_read_asks(device, offset, end, device, offset, len, Seq::empty());
        lemma_leads_asks(device, offset, end, first, world, events, last, after);
        match last.outcome {
            OutcomeView::Wait { op: OpView::Read { cursor, stage, .. }, action } => match stage {
                ReadStageView::Object { stage } => {
                    let id = object_at(device, cursor);
                    assert(is_covered_by(device, offset, end, id));
                    lemma_copy(device, id);
                    assert(asks_for(device, id, action));
                },
                ReadStageView::Probing { next, .. } => {
                    assert(asks_for(device, next, action));
                },
                ReadStageView::Fetching { wanted } => {
                    let ids = message_ids(wanted);
                    assert forall|k: int| 0 <= k < ids.len() implies is_message_ahead(
                        device,
                        end,
                        #[trigger] ids[k],
                    ) by {
                        assert(copy_of(device, wanted[k].object_id) is Some);
                    }
                },
                ReadStageView::Storing { wanted, at, .. } => {
                    assert(asks_for(device, wanted[at].object_id, action));
                },
            },
            _ => {},
        }
    }
}

} // verus!
