//! Reads, writes and flushes of the block device, one step at a time.
use vstd::prelude::*;
use vstd::slice::slice_subrange;

use crate::backend::clone_bytes;
use crate::block::BlockMap;
use crate::cache::{
    change_views, changed_by, dirty_views, ChangeView, DirtyObject, StoreChange, StoreError,
};
use crate::clock::{now_text, utc_text_of, writable_time};
use crate::device::{
    device_changed, device_ok, fetch_wanted, flush_on, flush_resumed, flush_started, manifest_with,
    message_ids, newest, no_metrics, object_at, object_resumed, object_size, object_started, op_ok,
    opened_object, padded, patched, payload_views, place_at, probe_on, read_ahead, read_on,
    read_resumed, read_started, resumed, save_written, span_at, step_view, store_on, stored_place,
    stored_views, with_hit, write_on, write_resumed, write_started, written_changes, zeros, Action,
    BlockDevice, DeviceError, DeviceMetrics, DeviceView, FlushStage, ObjectOutcome, ObjectStage,
    ObjectStepView, Op, Outcome, ReadStage, Reply, Step, StoredObject, StoredView, WriteStage,
    MAX_DIRTY_OBJECTS, READ_AHEAD_OBJECTS,
};
use crate::digest::sha256_hex;
use crate::envelope::ObjectEnvelope;
use crate::index::lemma_changed_by_one;
use crate::manifest::{Manifest, ManifestObject};
use crate::store::LocalStore;
use crate::text::text_equal;
use crate::wire::push_bytes;

verus! {

/// The payload of an object, brought to the object size.
pub fn pad_object(payload: Vec<u8>, size: usize) -> (object: Vec<u8>)
    ensures
        object@ == padded(payload@, size as int),
        object@.len() == size,
{
    let ghost before = payload@;
    let mut object = payload;
    object.resize(size, 0);
    proof {
        if before.len() >= size {
            assert(object@ =~= before.take(size as int));
        } else {
            assert forall|i: int| 0 <= i < size implies object@[i] == padded(
                before,
                size as int,
            )[i] by {
                if i < before.len() {
                    assert(object@.subrange(0, before.len() as int)[i] == before[i]);
                }
            }
            assert(object@ =~= padded(before, size as int));
        }
    }
    object
}

fn zero_object(size: usize) -> (object: Vec<u8>)
    ensures
        object@ == zeros(size as int),
{
    let object: Vec<u8> = vec![0u8; size];
    assert(object@ =~= zeros(size as int));
    object
}

/// Puts `count` bytes of `input`, from `from` on, into `object` from `at` on.
fn patch(object: &mut Vec<u8>, at: usize, input: &Vec<u8>, from: usize, count: usize)
    requires
        at + count <= old(object).len(),
        from + count <= input.len(),
    ensures
        final(object)@ == patched(
            old(object)@,
            at as int,
            input@.subrange(from as int, from + count),
        ),
{
    let ghost before = object@;
    let mut i: usize = 0;
    while i < count
        invariant
            i <= count,
            at + count <= object.len(),
            object@.len() == before.len(),
            from + count <= input.len(),
            forall|k: int|
                0 <= k < before.len() ==> #[trigger] object@[k] == if at <= k < at + i {
                    input@[from + (k - at)]
                } else {
                    before[k]
                },
        decreases count - i,
    {
        object.set(at + i, input[from + i]);
        i += 1;
    }
    assert(object@ =~= patched(before, at as int, input@.subrange(from as int, from + count)));
}

fn stored_object(entry: &ManifestObject) -> (result: Result<StoredObject, DeviceError>)
    ensures
        match result {
            Ok(object) => stored_place(entry@) == Ok::<StoredView, DeviceError>(object@),
            Err(error) => stored_place(entry@) == Err::<StoredView, DeviceError>(error),
        },
{
    match (&entry.remote, &entry.sha256) {
        (None, _) => Err(DeviceError::NoRemote { object_id: entry.object_id }),
        (Some(_), None) => Err(DeviceError::NoChecksum { object_id: entry.object_id }),
        (Some(remote), Some(sha256)) => Ok(
            StoredObject {
                object_id: entry.object_id,
                generation: entry.generation,
                sha256: sha256.clone(),
                remote: remote.clone(),
            },
        ),
    }
}

fn ids_of(objects: &Vec<StoredObject>) -> (ids: Vec<i32>)
    ensures
        ids@ == message_ids(stored_views(objects@)),
{
    let mut ids: Vec<i32> = Vec::new();
    let mut i: usize = 0;
    while i < objects.len()
        invariant
            i <= objects@.len(),
            ids@.len() == i,
            forall|k: int| 0 <= k < i ==> #[trigger] ids@[k] == objects@[k].remote.message_id,
        decreases objects@.len() - i,
    {
        ids.push(objects[i].remote.message_id);
        i += 1;
    }
    assert(ids@ =~= message_ids(stored_views(objects@)));
    ids
}

impl BlockDevice {
    /// A device with the given sizes, local index and manifest.
    pub fn new(map: BlockMap, store: LocalStore, manifest: Manifest) -> (device: Self)
        ensures
            device@ == (DeviceView {
                map,
                store: store@,
                manifest: manifest@,
                metrics: no_metrics(),
                has_committer: false,
                max_dirty_objects: 4096,
                read_ahead_objects: 4,
            }),
    {
        BlockDevice {
            map,
            store,
            manifest,
            metrics: DeviceMetrics::default(),
            has_committer: false,
            max_dirty_objects: MAX_DIRTY_OBJECTS,
            read_ahead_objects: READ_AHEAD_OBJECTS,
        }
    }

    /// The device, which from now on has its manifest committed by every flush.
    pub fn with_committer(self) -> (device: Self)
        ensures
            device@ == (DeviceView { has_committer: true, ..self@ }),
    {
        let mut device = self;
        device.has_committer = true;
        device
    }

    /// The running totals.
    pub fn metrics(&self) -> (metrics: DeviceMetrics)
        ensures
            metrics == self@.metrics,
    {
        self.metrics
    }

    fn open_object(&self, encoded: &Vec<u8>, object_id: u64, generation: u64) -> (outcome:
        ObjectOutcome)
        ensures
            outcome@ == opened_object(self@, encoded@, object_id, generation),
            outcome matches ObjectOutcome::Read { bytes } ==> bytes@.len() == object_size(self@),
    {
        match ObjectEnvelope::decode(encoded.as_slice(), object_id, generation) {
            Ok(envelope) => ObjectOutcome::Read {
                bytes: pad_object(envelope.payload, self.map.object_size as usize),
            },
            Err(error) => ObjectOutcome::Refused { error: DeviceError::Format(error) },
        }
    }

    /// Begins to read an object.
    pub fn start_object(&self, object_id: u64) -> (outcome: ObjectOutcome)
        ensures
            outcome@ == object_started(self@, object_id),
            outcome matches ObjectOutcome::Read { bytes } ==> bytes@.len() == object_size(self@),
    {
        if let Some(row) = self.store.dirty_object(object_id) {
            let path = row.cache_path.clone();
            return ObjectOutcome::Wait {
                stage: ObjectStage::Dirty { row },
                action: Action::ReadFile { path },
            };
        }
        let i = match self.manifest.position(object_id) {
            None => {
                return ObjectOutcome::Refused { error: DeviceError::NotInManifest { object_id } };
            },
            Some(i) => i,
        };
        let entry = &self.manifest.objects[i];
        if entry.zero {
            return ObjectOutcome::Read { bytes: zero_object(self.map.object_size as usize) };
        }
        match stored_object(entry) {
            Err(error) => ObjectOutcome::Refused { error },
            Ok(object) => {
                let path = self.store.cache_path(object.object_id, object.generation);
                ObjectOutcome::Wait {
                    stage: ObjectStage::Cached { object },
                    action: Action::ReadFile { path },
                }
            },
        }
    }

    /// Goes on reading an object, after a reply.
    pub fn resume_object(&mut self, stage: ObjectStage, reply: Reply, now: &str) -> (step: (
        Vec<StoreChange>,
        ObjectOutcome,
    ))
        requires
            device_ok(old(self)@),
        ensures
            (ObjectStepView {
                device: final(self)@,
                changes: change_views(step.0@),
                outcome: step.1@,
            }) == object_resumed(old(self)@, stage@, reply@, now@),
            device_ok(final(self)@),
            step.1 matches ObjectOutcome::Read { bytes } ==> bytes@.len() == object_size(
                old(self)@,
            ),
            final(self)@.map == old(self)@.map,
            final(self)@.manifest == old(self)@.manifest,
    {
        let ghost before = self@;
        let mut changes: Vec<StoreChange> = Vec::new();
        assert(change_views(changes@) =~= Seq::<ChangeView>::empty());
        match (stage, reply) {
            (_, Reply::Failed) => (
                changes,
                ObjectOutcome::Refused { error: DeviceError::Outside },
            ),
            (ObjectStage::Dirty { row }, Reply::File { content }) => {
                let sha = sha256_hex(content.as_slice());
                if !text_equal(sha.as_str(), row.sha256.as_str()) {
                    return (
                        changes,
                        ObjectOutcome::Refused {
                            error: DeviceError::DirtyChecksum { object_id: row.object_id },
                        },
                    );
                }
                (changes, self.open_object(&content, row.object_id, row.generation))
            },
            (ObjectStage::Dirty { .. }, Reply::NoFile) => (
                changes,
                ObjectOutcome::Refused { error: DeviceError::Outside },
            ),
            (ObjectStage::Cached { object }, Reply::File { content }) => {
                match self.store.read_cache_at(
                    object.object_id,
                    object.generation,
                    object.sha256.as_str(),
                    Some(content),
                    now,
                ) {
                    Ok(Some((cached, change))) => {
                        let ghost view = change@;
                        changes.push(change);
                        assert(change_views(changes@) =~= seq![view]);
                        self.metrics.record_hit();
                        let outcome = self.open_object(
                            &cached,
                            object.object_id,
                            object.generation,
                        );
                        assert(self@ =~= (DeviceView {
                            metrics: with_hit(before.metrics),
                            ..device_changed(before, view)
                        }));
                        (changes, outcome)
                    },
                    _ => (
                        changes,
                        ObjectOutcome::Refused {
                            error: DeviceError::CacheChecksum { object_id: object.object_id },
                        },
                    ),
                }
            },
            (ObjectStage::Cached { object }, Reply::NoFile) => {
                self.metrics.record_misses(1);
                let reference = object.remote.clone();
                (
                    changes,
                    ObjectOutcome::Wait {
                        stage: ObjectStage::Remote { object },
                        action: Action::Fetch { reference },
                    },
                )
            },
            (ObjectStage::Remote { object }, Reply::Fetched { payload, ms }) => {
                self.metrics.record_download(ms);
                let sha = sha256_hex(payload.as_slice());
                if !text_equal(sha.as_str(), object.sha256.as_str()) {
                    return (
                        changes,
                        ObjectOutcome::Refused {
                            error: DeviceError::RemoteChecksum { object_id: object.object_id },
                        },
                    );
                }
                let path = self.store.cache_path(object.object_id, object.generation);
                let bytes = clone_bytes(&payload);
                (
                    changes,
                    ObjectOutcome::Wait {
                        stage: ObjectStage::Saving { object, encoded: payload },
                        action: Action::WriteFile { path, bytes },
                    },
                )
            },
            (ObjectStage::Saving { object, encoded }, Reply::Done) => {
                let (_, change) = self.store.write_cache_at(
                    object.object_id,
                    object.generation,
                    encoded.as_slice(),
                    false,
                    now,
                );
                let ghost view = change@;
                changes.push(change);
                assert(change_views(changes@) =~= seq![view]);
                let outcome = self.open_object(&encoded, object.object_id, object.generation);
                assert(self@ =~= device_changed(before, view));
                (changes, outcome)
            },
            _ => (
                changes,
                ObjectOutcome::Refused { error: DeviceError::UnexpectedReply },
            ),
        }
    }
}

impl BlockDevice {
    fn segment(&self, cursor: u64, remaining: usize) -> (segment: (u64, usize, usize))
        requires
            device_ok(self@),
            remaining > 0,
        ensures
            segment.0 == object_at(self@, cursor as int),
            segment.1 == place_at(self@, cursor as int),
            segment.2 == span_at(self@, cursor as int, remaining as int),
            segment.1 + segment.2 <= object_size(self@),
            0 < segment.2 <= remaining,
    {
        let size = self.map.object_size as u64;
        let object_id = cursor / size;
        let place = (cursor % size) as usize;
        let room: usize = self.map.object_size as usize - place;
        let span: usize = if remaining < room {
            remaining
        } else {
            room
        };
        (object_id, place, span)
    }

    fn continue_read(&mut self, start: u64, count: usize, sofar: Vec<u8>) -> (outcome: Outcome)
        requires
            device_ok(old(self)@),
            start + count <= old(self)@.map.device_size,
        ensures
            (final(self)@, outcome@) == read_on(
                old(self)@,
                start as int,
                count as int,
                sofar@,
            ),
            device_ok(final(self)@),
            outcome matches Outcome::Wait { op, .. } ==> op_ok(final(self)@, op@),
    {
        let ghost goal = read_on(self@, start as int, count as int, sofar@);
        let mut cursor: u64 = start;
        let mut remaining: usize = count;
        let mut out = sofar;
        while remaining > 0
            invariant
                *self == *old(self),
                device_ok(self@),
                cursor + remaining <= self@.map.device_size,
                goal == read_on(self@, cursor as int, remaining as int, out@),
                goal == read_on(old(self)@, start as int, count as int, sofar@),
            decreases remaining,
        {
            let (object_id, place, span) = self.segment(cursor, remaining);
            match self.start_object(object_id) {
                ObjectOutcome::Read { bytes } => {
                    let ghost before = out@;
                    proof {
                        assert(bytes@.len() == object_size(self@));
                    }
                    push_bytes(&mut out, slice_subrange(bytes.as_slice(), place, place + span));
                    assert(out@ =~= before + bytes@.subrange(place as int, place + span));
                    cursor = cursor + span as u64;
                    remaining = remaining - span;
                },
                ObjectOutcome::Refused { error } => {
                    return Outcome::Refused { error };
                },
                ObjectOutcome::Wait { stage, action } => {
                    return Outcome::Wait {
                        op: Op::Read { cursor, remaining, out, stage: ReadStage::Object { stage } },
                        action,
                    };
                },
            }
        }
        self.start_ahead(cursor, out)
    }

    fn start_ahead(&mut self, cursor: u64, out: Vec<u8>) -> (outcome: Outcome)
        requires
            device_ok(old(self)@),
            cursor <= old(self)@.map.device_size,
        ensures
            (final(self)@, outcome@) == read_ahead(old(self)@, cursor as int, out@),
            device_ok(final(self)@),
            outcome matches Outcome::Wait { op, .. } ==> op_ok(final(self)@, op@),
    {
        let size = self.map.object_size as u64;
        if cursor < self.map.device_size && cursor % size == 0 {
            let next = cursor / size;
            let end: u64 = if next <= u64::MAX - self.read_ahead_objects {
                next + self.read_ahead_objects
            } else {
                u64::MAX
            };
            let wanted: Vec<StoredObject> = Vec::new();
            assert(stored_views(wanted@) =~= Seq::<StoredView>::empty());
            self.continue_probe(cursor, out, next, end, wanted)
        } else {
            Outcome::Finished { bytes: out }
        }
    }

    fn continue_probe(
        &mut self,
        cursor: u64,
        out: Vec<u8>,
        start: u64,
        end: u64,
        wanted: Vec<StoredObject>,
    ) -> (outcome: Outcome)
        requires
            device_ok(old(self)@),
            cursor <= old(self)@.map.device_size,
        ensures
            (final(self)@, outcome@) == probe_on(
                old(self)@,
                cursor as int,
                out@,
                start,
                end,
                stored_views(wanted@),
            ),
            device_ok(final(self)@),
            outcome matches Outcome::Wait { op, .. } ==> op_ok(final(self)@, op@),
    {
        let ghost goal = probe_on(self@, cursor as int, out@, start, end, stored_views(wanted@));
        let mut next: u64 = start;
        while next < end
            invariant
                *self == *old(self),
                device_ok(self@),
                cursor <= self@.map.device_size,
                goal == probe_on(self@, cursor as int, out@, next, end, stored_views(wanted@)),
                goal == probe_on(
                    old(self)@,
                    cursor as int,
                    out@,
                    start,
                    end,
                    stored_views(wanted@),
                ),
            decreases end - next,
        {
            if self.store.dirty_object(next).is_none() {
                let i = match self.manifest.position(next) {
                    None => {
                        return self.fetch_ahead(cursor, out, wanted);
                    },
                    Some(i) => i,
                };
                let entry = &self.manifest.objects[i];
                if !entry.zero {
                    if let Ok(object) = stored_object(entry) {
                        let path = self.store.cache_path(object.object_id, object.generation);
                        return Outcome::Wait {
                            op: Op::Read {
                                cursor,
                                remaining: 0,
                                out,
                                stage: ReadStage::Probing { next, end, wanted, object },
                            },
                            action: Action::ReadFile { path },
                        };
                    }
                }
            }
            next = next + 1;
        }
        self.fetch_ahead(cursor, out, wanted)
    }

    fn fetch_ahead(&mut self, cursor: u64, out: Vec<u8>, wanted: Vec<StoredObject>) -> (outcome:
        Outcome)
        requires
            device_ok(old(self)@),
            cursor <= old(self)@.map.device_size,
        ensures
            (final(self)@, outcome@) == fetch_wanted(
                old(self)@,
                cursor as int,
                out@,
                stored_views(wanted@),
            ),
            device_ok(final(self)@),
            outcome matches Outcome::Wait { op, .. } ==> op_ok(final(self)@, op@),
    {
        if wanted.len() == 0 {
            return Outcome::Finished { bytes: out };
        }
        self.metrics.record_misses(wanted.len() as u64);
        let ids = ids_of(&wanted);
        Outcome::Wait {
            op: Op::Read { cursor, remaining: 0, out, stage: ReadStage::Fetching { wanted } },
            action: Action::FetchMany { ids },
        }
    }

    fn continue_store(
        &self,
        cursor: u64,
        out: Vec<u8>,
        wanted: Vec<StoredObject>,
        payloads: Vec<Option<Vec<u8>>>,
        start: usize,
    ) -> (outcome: Outcome)
        requires
            device_ok(self@),
            cursor <= self@.map.device_size,
        ensures
            outcome@ == store_on(
                self@,
                cursor as int,
                out@,
                stored_views(wanted@),
                payload_views(payloads@),
                start as int,
            ),
            outcome matches Outcome::Wait { op, .. } ==> op_ok(self@, op@),
    {
        let ghost views = stored_views(wanted@);
        let ghost bytes_views = payload_views(payloads@);
        let ghost goal = store_on(self@, cursor as int, out@, views, bytes_views, start as int);
        let mut at: usize = start;
        while at < wanted.len() && at < payloads.len()
            invariant
                device_ok(self@),
                cursor <= self@.map.device_size,
                views == stored_views(wanted@),
                bytes_views == payload_views(payloads@),
                goal == store_on(self@, cursor as int, out@, views, bytes_views, at as int),
                goal == store_on(self@, cursor as int, out@, views, bytes_views, start as int),
            decreases wanted@.len() - at,
        {
            let object = &wanted[at];
            assert(views[at as int] == object@);
            if let Some(payload) = &payloads[at] {
                assert(bytes_views[at as int] == Some(payload@));
                let sha = sha256_hex(payload.as_slice());
                if text_equal(sha.as_str(), object.sha256.as_str()) {
                    if let Ok(_) = ObjectEnvelope::decode(
                        payload.as_slice(),
                        object.object_id,
                        object.generation,
                    ) {
                        let path = self.store.cache_path(object.object_id, object.generation);
                        let bytes = clone_bytes(payload);
                        return Outcome::Wait {
                            op: Op::Read {
                                cursor,
                                remaining: 0,
                                out,
                                stage: ReadStage::Storing { wanted, payloads, at },
                            },
                            action: Action::WriteFile { path, bytes },
                        };
                    }
                }
            }
            at = at + 1;
        }
        Outcome::Finished { bytes: out }
    }
}

/// A step without row operations.
fn step_to(outcome: Outcome) -> (step: Step)
    ensures
        step.outcome == outcome,
        change_views(step.changes@) == Seq::<ChangeView>::empty(),
{
    let changes: Vec<StoreChange> = Vec::new();
    assert(change_views(changes@) =~= Seq::<ChangeView>::empty());
    Step { changes, outcome }
}

/// A step with one row operation.
fn step_with(change: StoreChange, outcome: Outcome) -> (step: Step)
    ensures
        step.outcome == outcome,
        change_views(step.changes@) == seq![change@],
{
    let mut changes: Vec<StoreChange> = Vec::new();
    let ghost view = change@;
    changes.push(change);
    assert(change_views(changes@) =~= seq![view]);
    Step { changes, outcome }
}

impl BlockDevice {
    /// Begins to read `len` bytes from `offset` on.
    pub fn read_at(&mut self, offset: u64, len: usize) -> (step: Step)
        requires
            device_ok(old(self)@),
            offset + len <= u64::MAX,
        ensures
            step_view(final(self)@, step) == read_started(old(self)@, offset as int, len as int),
            device_ok(final(self)@),
            step.outcome matches Outcome::Wait { op, .. } ==> op_ok(final(self)@, op@),
    {
        if offset + len as u64 > self.map.device_size {
            return step_to(Outcome::Refused { error: DeviceError::ReadOutOfBounds });
        }
        let out: Vec<u8> = Vec::new();
        assert(out@ =~= Seq::<u8>::empty());
        let outcome = self.continue_read(offset, len, out);
        step_to(outcome)
    }

    fn resume_read(
        &mut self,
        cursor: u64,
        remaining: usize,
        out: Vec<u8>,
        stage: ReadStage,
        reply: Reply,
        now: &str,
    ) -> (step: Step)
        requires
            device_ok(old(self)@),
            op_ok(old(self)@, (Op::Read { cursor, remaining, out, stage })@),
        ensures
            step_view(final(self)@, step) == read_resumed(
                old(self)@,
                cursor as int,
                remaining as int,
                out@,
                stage@,
                reply@,
                now@,
            ),
            device_ok(final(self)@),
            step.outcome matches Outcome::Wait { op, .. } ==> op_ok(final(self)@, op@),
    {
        let ghost before = self@;
        match stage {
            ReadStage::Object { stage } => {
                let (_, place, span) = self.segment(cursor, remaining);
                let (changes, outcome) = self.resume_object(stage, reply, now);
                let outcome = match outcome {
                    ObjectOutcome::Read { bytes } => {
                        let mut out = out;
                        let ghost sofar = out@;
                        push_bytes(&mut out, slice_subrange(bytes.as_slice(), place, place + span));
                        assert(out@ =~= sofar + bytes@.subrange(place as int, place + span));
                        self.continue_read(cursor + span as u64, remaining - span, out)
                    },
                    ObjectOutcome::Refused { error } => Outcome::Refused { error },
                    ObjectOutcome::Wait { stage, action } => Outcome::Wait {
                        op: Op::Read { cursor, remaining, out, stage: ReadStage::Object { stage } },
                        action,
                    },
                };
                Step { changes, outcome }
            },
            ReadStage::Probing { next, end, wanted, object } => match reply {
                Reply::NoFile => {
                    let mut wanted = wanted;
                    let ghost sofar = stored_views(wanted@);
                    let ghost added = object@;
                    wanted.push(object);
                    assert(stored_views(wanted@) =~= sofar.push(added));
                    let outcome = self.continue_probe(cursor, out, next + 1, end, wanted);
                    step_to(outcome)
                },
                Reply::File { content } => {
                    match self.store.read_cache_at(
                        object.object_id,
                        object.generation,
                        object.sha256.as_str(),
                        Some(content),
                        now,
                    ) {
                        Ok(Some((_, change))) => {
                            self.metrics.record_hit();
                            assert(self@ =~= (DeviceView {
                                metrics: with_hit(before.metrics),
                                ..device_changed(before, change@)
                            }));
                            let outcome = self.continue_probe(cursor, out, next + 1, end, wanted);
                            step_with(change, outcome)
                        },
                        _ => step_to(Outcome::Finished { bytes: out }),
                    }
                },
                _ => step_to(Outcome::Finished { bytes: out }),
            },
            ReadStage::Fetching { wanted } => match reply {
                Reply::Messages { payloads, ms } => {
                    self.metrics.record_download(ms);
                    let outcome = self.continue_store(cursor, out, wanted, payloads, 0);
                    step_to(outcome)
                },
                _ => step_to(Outcome::Finished { bytes: out }),
            },
            ReadStage::Storing { wanted, payloads, at } => match reply {
                Reply::Done => {
                    assert(at < wanted.len());
                    let object = &wanted[at];
                    assert(stored_views(wanted@)[at as int] == object@);
                    assert(payload_views(payloads@)[at as int] is Some);
                    if let Some(payload) = &payloads[at] {
                        let (_, change) = self.store.write_cache_at(
                            object.object_id,
                            object.generation,
                            payload.as_slice(),
                            false,
                            now,
                        );
                        assert(self@ =~= device_changed(before, change@));
                        let outcome = self.continue_store(cursor, out, wanted, payloads, at + 1);
                        step_with(change, outcome)
                    } else {
                        step_to(Outcome::Finished { bytes: out })
                    }
                },
                _ => step_to(Outcome::Finished { bytes: out }),
            },
        }
    }

    /// Begins to write `input` from `offset` on.
    pub fn write_at(&mut self, offset: u64, input: Vec<u8>) -> (step: Step)
        requires
            device_ok(old(self)@),
            offset + input@.len() <= u64::MAX,
            0 < input@.len() && offset + input@.len() <= old(self)@.map.device_size
                ==> old(self)@.manifest.generation < u64::MAX,
        ensures
            step_view(final(self)@, step) == write_started(old(self)@, offset as int, input@),
            device_ok(final(self)@),
            step.outcome matches Outcome::Wait { op, .. } ==> op_ok(final(self)@, op@),
    {
        if offset + input.len() as u64 > self.map.device_size {
            return step_to(Outcome::Refused { error: DeviceError::WriteOutOfBounds });
        }
        let outcome = self.continue_write(offset, input, 0);
        step_to(outcome)
    }

    fn continue_write(&self, cursor: u64, input: Vec<u8>, at: usize) -> (outcome: Outcome)
        requires
            device_ok(self@),
            at <= input@.len(),
            cursor + (input@.len() - at) <= self@.map.device_size,
            at < input@.len() ==> self@.manifest.generation < u64::MAX,
        ensures
            outcome@ == write_on(self@, cursor as int, input@, at as int),
            outcome matches Outcome::Wait { op, .. } ==> op_ok(self@, op@),
    {
        if at >= input.len() {
            let bytes: Vec<u8> = Vec::new();
            assert(bytes@ =~= Seq::<u8>::empty());
            return Outcome::Finished { bytes };
        }
        let (object_id, _, span) = self.segment(cursor, input.len() - at);
        if span == self.map.object_size as usize {
            let object = zero_object(self.map.object_size as usize);
            return self.save_object(cursor, input, at, object);
        }
        match self.start_object(object_id) {
            ObjectOutcome::Read { bytes } => self.save_object(cursor, input, at, bytes),
            ObjectOutcome::Refused { error } => Outcome::Refused { error },
            ObjectOutcome::Wait { stage, action } => Outcome::Wait {
                op: Op::Write { cursor, input, at, stage: WriteStage::Reading { stage } },
                action,
            },
        }
    }

    fn save_object(&self, cursor: u64, input: Vec<u8>, at: usize, object: Vec<u8>) -> (outcome:
        Outcome)
        requires
            device_ok(self@),
            at < input@.len(),
            cursor + (input@.len() - at) <= self@.map.device_size,
            self@.manifest.generation < u64::MAX,
            object@.len() == object_size(self@),
        ensures
            outcome@ == save_written(self@, cursor as int, input@, at as int, object@),
            outcome matches Outcome::Wait { op, .. } ==> op_ok(self@, op@),
    {
        let stats = self.store.stats();
        if stats.dirty_objects >= self.max_dirty_objects {
            return Outcome::Refused { error: DeviceError::Backpressure };
        }
        let (object_id, place, span) = self.segment(cursor, input.len() - at);
        let generation: u64 = self.manifest.generation + 1;
        let mut object = object;
        patch(&mut object, place, &input, at, span);
        let envelope = ObjectEnvelope {
            object_id,
            generation,
            object_size: self.map.object_size,
            flags: 0,
            payload: object,
        };
        let encoded = envelope.encode();
        let bytes = clone_bytes(&encoded);
        let path = self.store.cache_path(object_id, generation);
        Outcome::Wait {
            op: Op::Write { cursor, input, at, stage: WriteStage::Saving { generation, encoded } },
            action: Action::WriteFile { path, bytes },
        }
    }

    fn resume_write(
        &mut self,
        cursor: u64,
        input: Vec<u8>,
        at: usize,
        stage: WriteStage,
        reply: Reply,
        now: &str,
    ) -> (step: Step)
        requires
            device_ok(old(self)@),
            op_ok(old(self)@, (Op::Write { cursor, input, at, stage })@),
        ensures
            step_view(final(self)@, step) == write_resumed(
                old(self)@,
                cursor as int,
                input@,
                at as int,
                stage@,
                reply@,
                now@,
            ),
            device_ok(final(self)@),
            step.outcome matches Outcome::Wait { op, .. } ==> op_ok(final(self)@, op@),
    {
        let ghost before = self@;
        match stage {
            WriteStage::Reading { stage } => {
                let (changes, outcome) = self.resume_object(stage, reply, now);
                let outcome = match outcome {
                    ObjectOutcome::Read { bytes } => self.save_object(cursor, input, at, bytes),
                    ObjectOutcome::Refused { error } => Outcome::Refused { error },
                    ObjectOutcome::Wait { stage, action } => Outcome::Wait {
                        op: Op::Write { cursor, input, at, stage: WriteStage::Reading { stage } },
                        action,
                    },
                };
                Step { changes, outcome }
            },
            WriteStage::Saving { generation, encoded } => match reply {
                Reply::Done => {
                    let (object_id, place, span) = self.segment(cursor, input.len() - at);
                    let path = self.store.cache_path(object_id, generation);
                    let (sha, change) = self.store.write_cache_at(
                        object_id,
                        generation,
                        encoded.as_slice(),
                        true,
                        now,
                    );
                    let marks = self.store.mark_dirty_at(
                        object_id,
                        generation,
                        path.as_str(),
                        sha.as_str(),
                        place as u64,
                        span as u64,
                        now,
                    );
                    let ghost first = change@;
                    let ghost rest = change_views(marks@);
                    let ghost all = written_changes(
                        before,
                        object_id,
                        generation,
                        encoded@,
                        place as int,
                        span as int,
                        now@,
                    );
                    let mut changes: Vec<StoreChange> = Vec::new();
                    changes.push(change);
                    let mut marks = marks;
                    changes.append(&mut marks);
                    proof {
                        assert(change_views(changes@) =~= seq![first] + rest);
                        assert(all == seq![first] + rest);
                        lemma_changed_by_both(before.store, seq![first], rest);
                        lemma_changed_by_one(before.store, first);
                        assert(self@ =~= (DeviceView {
                            store: changed_by(before.store, all),
                            ..before
                        }));
                    }
                    let outcome = self.continue_write(cursor + span as u64, input, at + span);
                    Step { changes, outcome }
                },
                Reply::Failed => step_to(Outcome::Refused { error: DeviceError::Outside }),
                _ => step_to(Outcome::Refused { error: DeviceError::UnexpectedReply }),
            },
        }
    }
}

proof fn lemma_changed_by_both(
    store: crate::cache::StoreView,
    first: Seq<ChangeView>,
    second: Seq<ChangeView>,
)
    ensures
        changed_by(store, first + second) == changed_by(changed_by(store, first), second),
    decreases second.len(),
{
    if second.len() == 0 {
        assert(first + second =~= first);
    } else {
        lemma_changed_by_both(store, first, second.drop_last());
        assert((first + second).drop_last() =~= first + second.drop_last());
    }
}

/// The largest generation among dirty objects.
fn newest_generation(rows: &Vec<DirtyObject>) -> (generation: u64)
    ensures
        generation == newest(dirty_views(rows@)),
{
    let ghost views = dirty_views(rows@);
    let mut generation: u64 = 0;
    let mut i: usize = 0;
    while i < rows.len()
        invariant
            i <= rows@.len(),
            views == dirty_views(rows@),
            generation == newest(views.take(i as int)),
        decreases rows@.len() - i,
    {
        proof {
            let head = views.take(i + 1);
            assert(head.drop_last() =~= views.take(i as int));
            assert(head.last() == rows@[i as int]@);
        }
        if rows[i].generation > generation {
            generation = rows[i].generation;
        }
        i += 1;
    }
    assert(views.take(i as int) =~= views);
    generation
}

impl BlockDevice {
    /// Begins to upload all dirty objects and to commit the manifest that names them.
    pub fn flush(&mut self) -> (step: Step)
        requires
            device_ok(old(self)@),
        ensures
            step_view(final(self)@, step) == flush_started(old(self)@),
            device_ok(final(self)@),
            step.outcome matches Outcome::Wait { op, .. } ==> op_ok(final(self)@, op@),
    {
        let rows = self.store.dirty_objects();
        if rows.len() == 0 {
            let bytes: Vec<u8> = Vec::new();
            assert(bytes@ =~= Seq::<u8>::empty());
            return step_to(Outcome::Finished { bytes });
        }
        self.manifest.generation = newest_generation(&rows);
        let outcome = self.continue_flush(rows, 0);
        step_to(outcome)
    }

    fn continue_flush(&self, rows: Vec<DirtyObject>, at: usize) -> (outcome: Outcome)
        ensures
            outcome@ == flush_on(self@, dirty_views(rows@), at as int),
            outcome matches Outcome::Wait { op, .. } ==> op_ok(self@, op@),
    {
        if at < rows.len() {
            let path = rows[at].cache_path.clone();
            Outcome::Wait {
                op: Op::Flush { rows, at, stage: FlushStage::Reading },
                action: Action::ReadFile { path },
            }
        } else if self.has_committer {
            Outcome::Wait {
                op: Op::Flush { rows, at, stage: FlushStage::Committing },
                action: Action::Commit,
            }
        } else {
            Outcome::Wait {
                op: Op::Flush { rows, at, stage: FlushStage::Encoding },
                action: Action::EncodeManifest,
            }
        }
    }

    /// The manifest entry at `i` names the new remote object of a dirty object; the one
    /// that it named before is garbage.
    fn enter_upload(
        &mut self,
        i: usize,
        row: &DirtyObject,
        remote: crate::backend::RemoteObjectRef,
        sha256: String,
    )
        requires
            i < old(self).manifest.objects@.len(),
        ensures
            final(self)@ == (DeviceView {
                manifest: manifest_with(old(self)@.manifest, i as int, row@, remote@, sha256@),
                ..old(self)@
            }),
    {
        let ghost before = self@;
        let ghost objects = self.manifest.objects@;
        let ghost garbage = self.manifest.garbage@;
        let entry = self.manifest.objects[i].clone();
        let ghost old_remote = entry@.remote;
        if let Some(old_ref) = entry.remote {
            let ghost added = old_ref@;
            self.manifest.garbage.push(old_ref);
            assert(crate::backend::ref_views(self.manifest.garbage@)
                =~= crate::backend::ref_views(garbage).push(added));
        }
        let updated = ManifestObject {
            object_id: entry.object_id,
            generation: row.generation,
            remote: Some(remote),
            sha256: Some(sha256),
            zero: false,
        };
        let ghost view = updated@;
        self.manifest.objects.set(i, updated);
        proof {
            assert(crate::manifest::object_views(self.manifest.objects@)
                =~= before.manifest.objects.update(i as int, view));
            assert(self@.manifest =~= manifest_with(
                before.manifest,
                i as int,
                row@,
                remote@,
                sha256@,
            ));
        }
    }

    fn resume_flush(
        &mut self,
        rows: Vec<DirtyObject>,
        at: usize,
        stage: FlushStage,
        reply: Reply,
        now: &str,
    ) -> (step: Step)
        requires
            device_ok(old(self)@),
            op_ok(old(self)@, (Op::Flush { rows, at, stage })@),
        ensures
            step_view(final(self)@, step) == flush_resumed(
                old(self)@,
                dirty_views(rows@),
                at as int,
                stage@,
                reply@,
                now@,
            ),
            device_ok(final(self)@),
            step.outcome matches Outcome::Wait { op, .. } ==> op_ok(final(self)@, op@),
    {
        let ghost before = self@;
        match (stage, reply) {
            (_, Reply::Failed) => step_to(Outcome::Refused { error: DeviceError::Outside }),
            (FlushStage::Reading, Reply::File { content }) => {
                let (object_id, generation) = (rows[at].object_id, rows[at].generation);
                assert(dirty_views(rows@)[at as int] == rows@[at as int]@);
                if let Err(error) = ObjectEnvelope::decode(
                    content.as_slice(),
                    object_id,
                    generation,
                ) {
                    return step_to(Outcome::Refused { error: DeviceError::Format(error) });
                }
                let sha = sha256_hex(content.as_slice());
                if !text_equal(sha.as_str(), rows[at].sha256.as_str()) {
                    return step_to(
                        Outcome::Refused { error: DeviceError::DirtyChecksum { object_id } },
                    );
                }
                let sha256 = sha.clone();
                step_to(
                    Outcome::Wait {
                        op: Op::Flush { rows, at, stage: FlushStage::Sending { sha256: sha } },
                        action: Action::Send { object_id, generation, payload: content, sha256 },
                    },
                )
            },
            (FlushStage::Reading, Reply::NoFile) => step_to(
                Outcome::Refused { error: DeviceError::Outside },
            ),
            (FlushStage::Sending { sha256 }, Reply::Sent { reference, ms }) => {
                self.metrics.record_upload(ms);
                assert(dirty_views(rows@)[at as int] == rows@[at as int]@);
                assert(at < rows.len());
                let row = rows[at].clone();
                match self.manifest.position(row.object_id) {
                    None => step_to(
                        Outcome::Refused {
                            error: DeviceError::ManifestMissing { object_id: row.object_id },
                        },
                    ),
                    Some(i) => {
                        self.enter_upload(i, &row, reference, sha256);
                        let outcome = self.continue_flush(rows, at + 1);
                        step_to(outcome)
                    },
                }
            },
            (FlushStage::Committing, Reply::Done) => step_to(
                Outcome::Wait {
                    op: Op::Flush { rows, at, stage: FlushStage::Encoding },
                    action: Action::EncodeManifest,
                },
            ),
            (FlushStage::Encoding, Reply::Encoded { manifest }) => {
                match self.store.replace_from_manifest_at(&self.manifest, manifest, now) {
                    Err(error) => {
                        let object_id = match error {
                            StoreError::DuplicateObject { object_id } => object_id,
                            _ => 0,
                        };
                        step_to(
                            Outcome::Refused { error: DeviceError::DuplicateObject { object_id } },
                        )
                    },
                    Ok(replace) => {
                        let clear = self.store.clear_dirty_and_wal();
                        let ghost (first, second) = (replace@, clear@);
                        let mut changes: Vec<StoreChange> = Vec::new();
                        changes.push(replace);
                        changes.push(clear);
                        let bytes: Vec<u8> = Vec::new();
                        proof {
                            assert(bytes@ =~= Seq::<u8>::empty());
                            assert(change_views(changes@) =~= seq![first, second]);
                            assert(self@ =~= device_changed(device_changed(before, first), second));
                        }
                        Step { changes, outcome: Outcome::Finished { bytes } }
                    },
                }
            },
            _ => step_to(Outcome::Refused { error: DeviceError::UnexpectedReply }),
        }
    }

    /// Goes on with a request, after the reply to the work that it asked for. `now` is
    /// the time to record.
    pub fn resume_at(&mut self, op: Op, reply: Reply, now: &str) -> (step: Step)
        requires
            device_ok(old(self)@),
            op_ok(old(self)@, op@),
        ensures
            step_view(final(self)@, step) == resumed(old(self)@, op@, reply@, now@),
            device_ok(final(self)@),
            step.outcome matches Outcome::Wait { op, .. } ==> op_ok(final(self)@, op@),
    {
        match op {
            Op::Read { cursor, remaining, out, stage } => self.resume_read(
                cursor,
                remaining,
                out,
                stage,
                reply,
                now,
            ),
            Op::Write { cursor, input, at, stage } => self.resume_write(
                cursor,
                input,
                at,
                stage,
                reply,
                now,
            ),
            Op::Flush { rows, at, stage } => self.resume_flush(rows, at, stage, reply, now),
        }
    }

    /// Goes on with a request, after the reply to the work that it asked for.
    pub fn resume(&mut self, op: Op, reply: Reply) -> (step: Step)
        requires
            device_ok(old(self)@),
            op_ok(old(self)@, op@),
        ensures
            exists|time: int|
                writable_time(time) && step_view(final(self)@, step) == resumed(
                    old(self)@,
                    op@,
                    reply@,
                    #[trigger] utc_text_of(time),
                ),
            device_ok(final(self)@),
            step.outcome matches Outcome::Wait { op, .. } ==> op_ok(final(self)@, op@),
    {
        let now = now_text();
        self.resume_at(op, reply, now.as_str())
    }
}

} // verus!
