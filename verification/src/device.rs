//! The block device as a state machine: what it keeps, which outside work it asks for,
//! and how each reply moves a read, a write or a flush forward.
use vstd::prelude::*;

use crate::backend::{RemoteObjectRef, RemoteObjectRefView};
use crate::block::BlockMap;
use crate::cache::{
    change_views, changed, dirty_at, dirty_views, object_path, ChangeView, DirtyObject, DirtyView,
    StoreChange, StoreView,
};
use crate::digest::sha256_text;
use crate::envelope::{envelope_bytes, open_envelope, EnvelopeView, FormatError};
use crate::index::{dirty_changes, first_repeat, saved_entry, touched_entry};
use crate::manifest::{entry_index, Manifest, ManifestObjectView, ManifestView};
use crate::store::{opt_bytes_view, well_formed, LocalStore};

verus! {

/// How many objects may be dirty before writes are refused.
pub const MAX_DIRTY_OBJECTS: usize = 4096;

/// How many objects behind a read are fetched ahead.
pub const READ_AHEAD_OBJECTS: u64 = 4;

/// Why a request to the device fails.
#[derive(Debug, Clone, Copy, PartialEq, Eq, Structural)]
pub enum DeviceError {
    ReadOutOfBounds,
    WriteOutOfBounds,
    /// The cache file of a dirty object does not have the recorded digest.
    DirtyChecksum { object_id: u64 },
    /// The cache file of a clean object does not have the recorded digest.
    CacheChecksum { object_id: u64 },
    /// The remote object does not have the recorded digest.
    RemoteChecksum { object_id: u64 },
    /// The bytes are not the stored form of the object.
    Format(FormatError),
    NotInManifest { object_id: u64 },
    NoRemote { object_id: u64 },
    NoChecksum { object_id: u64 },
    /// A dirty object is not part of the manifest.
    ManifestMissing { object_id: u64 },
    /// The manifest lists an object twice.
    DuplicateObject { object_id: u64 },
    /// Too many objects are dirty.
    Backpressure,
    /// Work outside the device failed.
    Outside,
    /// The reply does not fit the work that was asked for.
    UnexpectedReply,
}

/// Running totals; each wraps around at the end of its range.
#[derive(Debug, Clone, Copy, PartialEq, Eq, Structural)]
pub struct DeviceMetrics {
    pub cache_hits: u64,
    pub cache_misses: u64,
    pub uploads: u64,
    pub upload_ms_total: u64,
    pub downloads: u64,
    pub download_ms_total: u64,
}

impl Default for DeviceMetrics {
    fn default() -> (metrics: Self)
        ensures
            metrics == no_metrics(),
    {
        DeviceMetrics {
            cache_hits: 0,
            cache_misses: 0,
            uploads: 0,
            upload_ms_total: 0,
            downloads: 0,
            download_ms_total: 0,
        }
    }
}

/// Totals of a device that did nothing yet.
pub open spec fn no_metrics() -> DeviceMetrics {
    DeviceMetrics {
        cache_hits: 0,
        cache_misses: 0,
        uploads: 0,
        upload_ms_total: 0,
        downloads: 0,
        download_ms_total: 0,
    }
}

/// The sum of two counters, modulo their range.
pub open spec fn wrapped(left: u64, right: u64) -> u64 {
    ((left + right) % 0x1_0000_0000_0000_0000) as u64
}

/// Totals after one more upload.
pub open spec fn with_upload(metrics: DeviceMetrics, ms: u64) -> DeviceMetrics {
    DeviceMetrics {
        uploads: wrapped(metrics.uploads, 1),
        upload_ms_total: wrapped(metrics.upload_ms_total, ms),
        ..metrics
    }
}

/// Totals after one more download.
pub open spec fn with_download(metrics: DeviceMetrics, ms: u64) -> DeviceMetrics {
    DeviceMetrics {
        downloads: wrapped(metrics.downloads, 1),
        download_ms_total: wrapped(metrics.download_ms_total, ms),
        ..metrics
    }
}

/// Totals after one more cache hit.
pub open spec fn with_hit(metrics: DeviceMetrics) -> DeviceMetrics {
    DeviceMetrics { cache_hits: wrapped(metrics.cache_hits, 1), ..metrics }
}

/// Totals after `count` more cache misses.
pub open spec fn with_misses(metrics: DeviceMetrics, count: u64) -> DeviceMetrics {
    DeviceMetrics { cache_misses: wrapped(metrics.cache_misses, count), ..metrics }
}

impl DeviceMetrics {
    /// Counts an upload that took `ms` milliseconds.
    pub fn record_upload(&mut self, ms: u64)
        ensures
            *final(self) == with_upload(*old(self), ms),
    {
        self.uploads = self.uploads.wrapping_add(1);
        self.upload_ms_total = self.upload_ms_total.wrapping_add(ms);
    }

    /// Counts a download that took `ms` milliseconds.
    pub fn record_download(&mut self, ms: u64)
        ensures
            *final(self) == with_download(*old(self), ms),
    {
        self.downloads = self.downloads.wrapping_add(1);
        self.download_ms_total = self.download_ms_total.wrapping_add(ms);
    }

    /// Counts an object found in the cache.
    pub fn record_hit(&mut self)
        ensures
            *final(self) == with_hit(*old(self)),
    {
        self.cache_hits = self.cache_hits.wrapping_add(1);
    }

    /// Counts `count` objects not found in the cache.
    pub fn record_misses(&mut self, count: u64)
        ensures
            *final(self) == with_misses(*old(self), count),
    {
        self.cache_misses = self.cache_misses.wrapping_add(count);
    }
}

/// Where the remote copy of an object lies, and its digest.
#[derive(Debug, PartialEq, Eq)]
pub struct StoredObject {
    pub object_id: u64,
    pub generation: u64,
    pub sha256: String,
    pub remote: RemoteObjectRef,
}

/// The value of a [`StoredObject`].
#[verifier::ext_equal]
pub struct StoredView {
    pub object_id: u64,
    pub generation: u64,
    pub sha256: Seq<char>,
    pub remote: RemoteObjectRefView,
}

impl View for StoredObject {
    type V = StoredView;

    open spec fn view(&self) -> StoredView {
        StoredView {
            object_id: self.object_id,
            generation: self.generation,
            sha256: self.sha256@,
            remote: self.remote@,
        }
    }
}

/// The values of a run of stored objects.
pub open spec fn stored_views(objects: Seq<StoredObject>) -> Seq<StoredView> {
    Seq::new(objects.len(), |i: int| objects[i]@)
}

/// Outside work that the device asks for.
#[derive(Debug, PartialEq, Eq)]
pub enum Action {
    ReadFile { path: String },
    WriteFile { path: String, bytes: Vec<u8> },
    /// Fetch the remote object that the reference names.
    Fetch { reference: RemoteObjectRef },
    /// Fetch several messages by their numbers.
    FetchMany { ids: Vec<i32> },
    Send { object_id: u64, generation: u64, payload: Vec<u8>, sha256: String },
    /// Commit the device's manifest remotely.
    Commit,
    /// Encode the device's manifest.
    EncodeManifest,
}

/// The value of an [`Action`].
#[verifier::ext_equal]
pub enum ActionView {
    ReadFile { path: Seq<char> },
    WriteFile { path: Seq<char>, bytes: Seq<u8> },
    Fetch { reference: RemoteObjectRefView },
    FetchMany { ids: Seq<i32> },
    Send { object_id: u64, generation: u64, payload: Seq<u8>, sha256: Seq<char> },
    Commit,
    EncodeManifest,
}

impl View for Action {
    type V = ActionView;

    open spec fn view(&self) -> ActionView {
        match self {
            Action::ReadFile { path } => ActionView::ReadFile { path: path@ },
            Action::WriteFile { path, bytes } => ActionView::WriteFile {
                path: path@,
                bytes: bytes@,
            },
            Action::Fetch { reference } => ActionView::Fetch { reference: reference@ },
            Action::FetchMany { ids } => ActionView::FetchMany { ids: ids@ },
            Action::Send { object_id, generation, payload, sha256 } => ActionView::Send {
                object_id: *object_id,
                generation: *generation,
                payload: payload@,
                sha256: sha256@,
            },
            Action::Commit => ActionView::Commit,
            Action::EncodeManifest => ActionView::EncodeManifest,
        }
    }
}

/// What came of outside work. Transfers say how many milliseconds they took.
#[derive(Debug, PartialEq, Eq)]
pub enum Reply {
    File { content: Vec<u8> },
    NoFile,
    Fetched { payload: Vec<u8>, ms: u64 },
    Messages { payloads: Vec<Option<Vec<u8>>>, ms: u64 },
    Sent { reference: RemoteObjectRef, ms: u64 },
    Encoded { manifest: Vec<u8> },
    Done,
    Failed,
}

/// The value of a [`Reply`].
#[verifier::ext_equal]
pub enum ReplyView {
    File { content: Seq<u8> },
    NoFile,
    Fetched { payload: Seq<u8>, ms: u64 },
    Messages { payloads: Seq<Option<Seq<u8>>>, ms: u64 },
    Sent { reference: RemoteObjectRefView, ms: u64 },
    Encoded { manifest: Seq<u8> },
    Done,
    Failed,
}

/// The values of a run of payloads that may be absent.
pub open spec fn payload_views(payloads: Seq<Option<Vec<u8>>>) -> Seq<Option<Seq<u8>>> {
    Seq::new(payloads.len(), |i: int| opt_bytes_view(payloads[i]))
}

impl View for Reply {
    type V = ReplyView;

    open spec fn view(&self) -> ReplyView {
        match self {
            Reply::File { content } => ReplyView::File { content: content@ },
            Reply::NoFile => ReplyView::NoFile,
            Reply::Fetched { payload, ms } => ReplyView::Fetched { payload: payload@, ms: *ms },
            Reply::Messages { payloads, ms } => ReplyView::Messages {
                payloads: payload_views(payloads@),
                ms: *ms,
            },
            Reply::Sent { reference, ms } => ReplyView::Sent { reference: reference@, ms: *ms },
            Reply::Encoded { manifest } => ReplyView::Encoded { manifest: manifest@ },
            Reply::Done => ReplyView::Done,
            Reply::Failed => ReplyView::Failed,
        }
    }
}

/// How far the reading of one object has come.
#[derive(Debug, PartialEq, Eq)]
pub enum ObjectStage {
    /// Reading the cache file of a dirty object.
    Dirty { row: DirtyObject },
    /// Looking for the cache file of a clean object.
    Cached { object: StoredObject },
    /// Fetching the remote object.
    Remote { object: StoredObject },
    /// Saving the fetched object to its cache file.
    Saving { object: StoredObject, encoded: Vec<u8> },
}

/// The value of an [`ObjectStage`].
#[verifier::ext_equal]
pub enum ObjectStageView {
    Dirty { row: DirtyView },
    Cached { object: StoredView },
    Remote { object: StoredView },
    Saving { object: StoredView, encoded: Seq<u8> },
}

impl View for ObjectStage {
    type V = ObjectStageView;

    open spec fn view(&self) -> ObjectStageView {
        match self {
            ObjectStage::Dirty { row } => ObjectStageView::Dirty { row: row@ },
            ObjectStage::Cached { object } => ObjectStageView::Cached { object: object@ },
            ObjectStage::Remote { object } => ObjectStageView::Remote { object: object@ },
            ObjectStage::Saving { object, encoded } => ObjectStageView::Saving {
                object: object@,
                encoded: encoded@,
            },
        }
    }
}

/// What the reading of one object comes to next.
#[derive(Debug, PartialEq, Eq)]
pub enum ObjectOutcome {
    Wait { stage: ObjectStage, action: Action },
    Read { bytes: Vec<u8> },
    Refused { error: DeviceError },
}

/// The value of an [`ObjectOutcome`].
#[verifier::ext_equal]
pub enum ObjectOutcomeView {
    Wait { stage: ObjectStageView, action: ActionView },
    Read { bytes: Seq<u8> },
    Refused { error: DeviceError },
}

impl View for ObjectOutcome {
    type V = ObjectOutcomeView;

    open spec fn view(&self) -> ObjectOutcomeView {
        match self {
            ObjectOutcome::Wait { stage, action } => ObjectOutcomeView::Wait {
                stage: stage@,
                action: action@,
            },
            ObjectOutcome::Read { bytes } => ObjectOutcomeView::Read { bytes: bytes@ },
            ObjectOutcome::Refused { error } => ObjectOutcomeView::Refused { error: *error },
        }
    }
}

/// How far a read has come behind its last object.
#[derive(Debug, PartialEq, Eq)]
pub enum ReadStage {
    /// Reading the object at the cursor.
    Object { stage: ObjectStage },
    /// Looking for the cache file of an object ahead.
    Probing { next: u64, end: u64, wanted: Vec<StoredObject>, object: StoredObject },
    /// Fetching the objects ahead that have no cache file.
    Fetching { wanted: Vec<StoredObject> },
    /// Saving the fetched object at `at` to its cache file.
    Storing { wanted: Vec<StoredObject>, payloads: Vec<Option<Vec<u8>>>, at: usize },
}

/// The value of a [`ReadStage`].
#[verifier::ext_equal]
pub enum ReadStageView {
    Object { stage: ObjectStageView },
    Probing { next: u64, end: u64, wanted: Seq<StoredView>, object: StoredView },
    Fetching { wanted: Seq<StoredView> },
    Storing { wanted: Seq<StoredView>, payloads: Seq<Option<Seq<u8>>>, at: int },
}

impl View for ReadStage {
    type V = ReadStageView;

    open spec fn view(&self) -> ReadStageView {
        match self {
            ReadStage::Object { stage } => ReadStageView::Object { stage: stage@ },
            ReadStage::Probing { next, end, wanted, object } => ReadStageView::Probing {
                next: *next,
                end: *end,
                wanted: stored_views(wanted@),
                object: object@,
            },
            ReadStage::Fetching { wanted } => ReadStageView::Fetching {
                wanted: stored_views(wanted@),
            },
            ReadStage::Storing { wanted, payloads, at } => ReadStageView::Storing {
                wanted: stored_views(wanted@),
                payloads: payload_views(payloads@),
                at: *at as int,
            },
        }
    }
}

/// How far a write has come with the object at its cursor.
#[derive(Debug, PartialEq, Eq)]
pub enum WriteStage {
    /// Reading the object that is overwritten in part.
    Reading { stage: ObjectStage },
    /// Saving the new object to its cache file.
    Saving { generation: u64, encoded: Vec<u8> },
}

/// The value of a [`WriteStage`].
#[verifier::ext_equal]
pub enum WriteStageView {
    Reading { stage: ObjectStageView },
    Saving { generation: u64, encoded: Seq<u8> },
}

impl View for WriteStage {
    type V = WriteStageView;

    open spec fn view(&self) -> WriteStageView {
        match self {
            WriteStage::Reading { stage } => WriteStageView::Reading { stage: stage@ },
            WriteStage::Saving { generation, encoded } => WriteStageView::Saving {
                generation: *generation,
                encoded: encoded@,
            },
        }
    }
}

/// How far a flush has come with the dirty object at its position.
#[derive(Debug, PartialEq, Eq)]
pub enum FlushStage {
    /// Reading the object's cache file.
    Reading,
    /// Uploading the object.
    Sending { sha256: String },
    /// Committing the manifest.
    Committing,
    /// Encoding the manifest for the local index.
    Encoding,
}

/// The value of a [`FlushStage`].
#[verifier::ext_equal]
pub enum FlushStageView {
    Reading,
    Sending { sha256: Seq<char> },
    Committing,
    Encoding,
}

impl View for FlushStage {
    type V = FlushStageView;

    open spec fn view(&self) -> FlushStageView {
        match self {
            FlushStage::Reading => FlushStageView::Reading,
            FlushStage::Sending { sha256 } => FlushStageView::Sending { sha256: sha256@ },
            FlushStage::Committing => FlushStageView::Committing,
            FlushStage::Encoding => FlushStageView::Encoding,
        }
    }
}

/// A request in progress.
#[allow(inconsistent_fields)]
#[derive(Debug, PartialEq, Eq)]
pub enum Op {
    Read { cursor: u64, remaining: usize, out: Vec<u8>, stage: ReadStage },
    Write { cursor: u64, input: Vec<u8>, at: usize, stage: WriteStage },
    Flush { rows: Vec<DirtyObject>, at: usize, stage: FlushStage },
}

/// The value of an [`Op`].
#[allow(inconsistent_fields)]
#[verifier::ext_equal]
pub enum OpView {
    Read { cursor: int, remaining: int, out: Seq<u8>, stage: ReadStageView },
    Write { cursor: int, input: Seq<u8>, at: int, stage: WriteStageView },
    Flush { rows: Seq<DirtyView>, at: int, stage: FlushStageView },
}

impl View for Op {
    type V = OpView;

    open spec fn view(&self) -> OpView {
        match self {
            Op::Read { cursor, remaining, out, stage } => OpView::Read {
                cursor: *cursor as int,
                remaining: *remaining as int,
                out: out@,
                stage: stage@,
            },
            Op::Write { cursor, input, at, stage } => OpView::Write {
                cursor: *cursor as int,
                input: input@,
                at: *at as int,
                stage: stage@,
            },
            Op::Flush { rows, at, stage } => OpView::Flush {
                rows: dirty_views(rows@),
                at: *at as int,
                stage: stage@,
            },
        }
    }
}

/// What a request comes to next.
#[derive(Debug, PartialEq, Eq)]
pub enum Outcome {
    /// Perform the action, then go on with its reply.
    Wait { op: Op, action: Action },
    /// The bytes read; none for a write or a flush.
    Finished { bytes: Vec<u8> },
    Refused { error: DeviceError },
}

/// The value of an [`Outcome`].
#[verifier::ext_equal]
pub enum OutcomeView {
    Wait { op: OpView, action: ActionView },
    Finished { bytes: Seq<u8> },
    Refused { error: DeviceError },
}

impl View for Outcome {
    type V = OutcomeView;

    open spec fn view(&self) -> OutcomeView {
        match self {
            Outcome::Wait { op, action } => OutcomeView::Wait { op: op@, action: action@ },
            Outcome::Finished { bytes } => OutcomeView::Finished { bytes: bytes@ },
            Outcome::Refused { error } => OutcomeView::Refused { error: *error },
        }
    }
}

/// One step of a request: the row operations to carry out on the tables first, and what
/// the request comes to next.
#[derive(Debug, PartialEq, Eq)]
pub struct Step {
    pub changes: Vec<StoreChange>,
    pub outcome: Outcome,
}

/// A device and what a request on it comes to next.
#[verifier::ext_equal]
pub struct StepView {
    pub device: DeviceView,
    pub changes: Seq<ChangeView>,
    pub outcome: OutcomeView,
}

/// The step that left the device as `device`.
pub open spec fn step_view(device: DeviceView, step: Step) -> StepView {
    StepView { device, changes: change_views(step.changes@), outcome: step.outcome@ }
}

/// One step in the reading of an object.
#[verifier::ext_equal]
pub struct ObjectStepView {
    pub device: DeviceView,
    pub changes: Seq<ChangeView>,
    pub outcome: ObjectOutcomeView,
}

/// The block device.
#[derive(Debug)]
pub struct BlockDevice {
    pub map: BlockMap,
    pub store: LocalStore,
    pub manifest: Manifest,
    pub metrics: DeviceMetrics,
    pub has_committer: bool,
    pub max_dirty_objects: usize,
    pub read_ahead_objects: u64,
}

/// The value of a [`BlockDevice`].
#[verifier::ext_equal]
pub struct DeviceView {
    pub map: BlockMap,
    pub store: StoreView,
    pub manifest: ManifestView,
    pub metrics: DeviceMetrics,
    pub has_committer: bool,
    pub max_dirty_objects: usize,
    pub read_ahead_objects: u64,
}

impl View for BlockDevice {
    type V = DeviceView;

    open spec fn view(&self) -> DeviceView {
        DeviceView {
            map: self.map,
            store: self.store@,
            manifest: self.manifest@,
            metrics: self.metrics,
            has_committer: self.has_committer,
            max_dirty_objects: self.max_dirty_objects,
            read_ahead_objects: self.read_ahead_objects,
        }
    }
}

/// A device that can serve requests.
pub open spec fn device_ok(device: DeviceView) -> bool {
    well_formed(device.store) && device.map.object_size > 0
}

/// The size of an object, in bytes.
pub open spec fn object_size(device: DeviceView) -> int {
    device.map.object_size as int
}

/// A payload brought to the given length: cut off, or filled up with zeros.
pub open spec fn padded(payload: Seq<u8>, size: int) -> Seq<u8> {
    if payload.len() >= size {
        payload.take(size)
    } else {
        payload + Seq::new((size - payload.len()) as nat, |i: int| 0u8)
    }
}

/// An object that was never written.
pub open spec fn zeros(size: int) -> Seq<u8> {
    Seq::new(size as nat, |i: int| 0u8)
}

/// The object that a stored form holds, brought to the object size.
pub open spec fn opened_object(
    device: DeviceView,
    encoded: Seq<u8>,
    object_id: u64,
    generation: u64,
) -> ObjectOutcomeView {
    match open_envelope(encoded, object_id, generation) {
        Ok(envelope) => ObjectOutcomeView::Read {
            bytes: padded(envelope.payload, object_size(device)),
        },
        Err(error) => ObjectOutcomeView::Refused { error: DeviceError::Format(error) },
    }
}

/// Where a written object is stored.
pub open spec fn stored_place(entry: ManifestObjectView) -> Result<StoredView, DeviceError> {
    match (entry.remote, entry.sha256) {
        (None, _) => Err(DeviceError::NoRemote { object_id: entry.object_id }),
        (Some(_), None) => Err(DeviceError::NoChecksum { object_id: entry.object_id }),
        (Some(remote), Some(sha256)) => Ok(
            StoredView {
                object_id: entry.object_id,
                generation: entry.generation,
                sha256,
                remote,
            },
        ),
    }
}

/// The first step in reading an object: a dirty object comes from its cache file, an
/// unwritten one is all zeros, any other is looked for in the cache.
pub open spec fn object_started(device: DeviceView, object_id: u64) -> ObjectOutcomeView {
    match dirty_at(device.store.dirty, object_id) {
        Some(row) => ObjectOutcomeView::Wait {
            stage: ObjectStageView::Dirty { row },
            action: ActionView::ReadFile { path: row.cache_path },
        },
        None => match entry_index(device.manifest.objects, object_id) {
            None => ObjectOutcomeView::Refused { error: DeviceError::NotInManifest { object_id } },
            Some(i) => {
                let entry = device.manifest.objects[i];
                if entry.zero {
                    ObjectOutcomeView::Read { bytes: zeros(object_size(device)) }
                } else {
                    match stored_place(entry) {
                        Err(error) => ObjectOutcomeView::Refused { error },
                        Ok(object) => ObjectOutcomeView::Wait {
                            stage: ObjectStageView::Cached { object },
                            action: ActionView::ReadFile {
                                path: object_path(
                                    device.store.cache_dir,
                                    object.object_id,
                                    object.generation,
                                ),
                            },
                        },
                    }
                }
            },
        },
    }
}

/// The device after one row operation.
pub open spec fn device_changed(device: DeviceView, change: ChangeView) -> DeviceView {
    DeviceView { store: changed(device.store, change), ..device }
}

/// A step that changes nothing in the index.
pub open spec fn object_step(device: DeviceView, outcome: ObjectOutcomeView) -> ObjectStepView {
    ObjectStepView { device, changes: Seq::empty(), outcome }
}

/// The row operation that records that an object's cache file was read.
pub open spec fn touching(device: DeviceView, object: StoredView, now: Seq<char>) -> ChangeView {
    ChangeView::PutCache {
        entry: touched_entry(
            device.store,
            object.object_id,
            object.generation,
            object.sha256,
            now,
        ),
    }
}

/// The row operation that records that an object was saved to its cache file.
pub open spec fn saving(
    device: DeviceView,
    object_id: u64,
    generation: u64,
    encoded: Seq<u8>,
    dirty: bool,
    now: Seq<char>,
) -> ChangeView {
    ChangeView::PutCache {
        entry: saved_entry(device.store, object_id, generation, encoded, dirty, now),
    }
}

/// The next step in reading an object, after a reply.
pub open spec fn object_resumed(
    device: DeviceView,
    stage: ObjectStageView,
    reply: ReplyView,
    now: Seq<char>,
) -> ObjectStepView {
    match (stage, reply) {
        (_, ReplyView::Failed) => object_step(
            device,
            ObjectOutcomeView::Refused { error: DeviceError::Outside },
        ),
        (ObjectStageView::Dirty { row }, ReplyView::File { content }) => object_step(
            device,
            if sha256_text(content) != row.sha256 {
                ObjectOutcomeView::Refused {
                    error: DeviceError::DirtyChecksum { object_id: row.object_id },
                }
            } else {
                opened_object(device, content, row.object_id, row.generation)
            },
        ),
        (ObjectStageView::Dirty { .. }, ReplyView::NoFile) => object_step(
            device,
            ObjectOutcomeView::Refused { error: DeviceError::Outside },
        ),
        (ObjectStageView::Cached { object }, ReplyView::File { content }) => {
            if sha256_text(content) != object.sha256 {
                object_step(
                    device,
                    ObjectOutcomeView::Refused {
                        error: DeviceError::CacheChecksum { object_id: object.object_id },
                    },
                )
            } else {
                let change = touching(device, object, now);
                ObjectStepView {
                    device: DeviceView {
                        metrics: with_hit(device.metrics),
                        ..device_changed(device, change)
                    },
                    changes: seq![change],
                    outcome: opened_object(device, content, object.object_id, object.generation),
                }
            }
        },
        (ObjectStageView::Cached { object }, ReplyView::NoFile) => object_step(
            DeviceView { metrics: with_misses(device.metrics, 1), ..device },
            ObjectOutcomeView::Wait {
                stage: ObjectStageView::Remote { object },
                action: ActionView::Fetch { reference: object.remote },
            },
        ),
        (ObjectStageView::Remote { object }, ReplyView::Fetched { payload, ms }) => object_step(
            DeviceView { metrics: with_download(device.metrics, ms), ..device },
            if sha256_text(payload) != object.sha256 {
                ObjectOutcomeView::Refused {
                    error: DeviceError::RemoteChecksum { object_id: object.object_id },
                }
            } else {
                ObjectOutcomeView::Wait {
                    stage: ObjectStageView::Saving { object, encoded: payload },
                    action: ActionView::WriteFile {
                        path: object_path(
                            device.store.cache_dir,
                            object.object_id,
                            object.generation,
                        ),
                        bytes: payload,
                    },
                }
            },
        ),
        (ObjectStageView::Saving { object, encoded }, ReplyView::Done) => {
            let change = saving(
                device,
                object.object_id,
                object.generation,
                encoded,
                false,
                now,
            );
            ObjectStepView {
                device: device_changed(device, change),
                changes: seq![change],
                outcome: opened_object(device, encoded, object.object_id, object.generation),
            }
        },
        _ => object_step(
            device,
            ObjectOutcomeView::Refused { error: DeviceError::UnexpectedReply },
        ),
    }
}

/// The number of the object at the cursor.
pub open spec fn object_at(device: DeviceView, cursor: int) -> u64 {
    (cursor / object_size(device)) as u64
}

/// Where the cursor falls in its object.
pub open spec fn place_at(device: DeviceView, cursor: int) -> int {
    cursor % object_size(device)
}

/// How many of the remaining bytes lie in the object at the cursor.
pub open spec fn span_at(device: DeviceView, cursor: int, remaining: int) -> int {
    let room = object_size(device) - place_at(device, cursor);
    if remaining < room {
        remaining
    } else {
        room
    }
}

/// A read that has its next `remaining` bytes to come from `cursor` on: objects that
/// need no outside work are taken at once.
pub open spec fn read_on(
    device: DeviceView,
    cursor: int,
    remaining: int,
    out: Seq<u8>,
) -> (DeviceView, OutcomeView)
    decreases remaining,
{
    if remaining <= 0 || object_size(device) <= 0 {
        read_ahead(device, cursor, out)
    } else {
        let place = place_at(device, cursor);
        let span = span_at(device, cursor, remaining);
        match object_started(device, object_at(device, cursor)) {
            ObjectOutcomeView::Read { bytes } => if span <= 0 {
                (device, OutcomeView::Finished { bytes: out })
            } else {
                read_on(
                    device,
                    cursor + span,
                    remaining - span,
                    out + bytes.subrange(place, place + span),
                )
            },
            ObjectOutcomeView::Refused { error } => (device, OutcomeView::Refused { error }),
            ObjectOutcomeView::Wait { stage, action } => (
                device,
                OutcomeView::Wait {
                    op: OpView::Read {
                        cursor,
                        remaining,
                        out,
                        stage: ReadStageView::Object { stage },
                    },
                    action,
                },
            ),
        }
    }
}

/// The end of a read: where the cursor stands at the start of an object, the next few
/// objects are brought into the cache.
pub open spec fn read_ahead(device: DeviceView, cursor: int, out: Seq<u8>) -> (
    DeviceView,
    OutcomeView,
) {
    if cursor < device.map.device_size && place_at(device, cursor) == 0 {
        let next = object_at(device, cursor);
        let end = if next + device.read_ahead_objects <= u64::MAX {
            (next + device.read_ahead_objects) as u64
        } else {
            u64::MAX
        };
        probe_on(device, cursor, out, next, end, Seq::empty())
    } else {
        (device, OutcomeView::Finished { bytes: out })
    }
}

/// Looks for cache files of the objects from `next` to `end`. Dirty, unwritten and
/// incomplete objects are passed over; the first number without an object ends the
/// search.
pub open spec fn probe_on(
    device: DeviceView,
    cursor: int,
    out: Seq<u8>,
    next: u64,
    end: u64,
    wanted: Seq<StoredView>,
) -> (DeviceView, OutcomeView)
    decreases end - next,
{
    if next >= end {
        fetch_wanted(device, cursor, out, wanted)
    } else if dirty_at(device.store.dirty, next) is Some {
        probe_on(device, cursor, out, (next + 1) as u64, end, wanted)
    } else {
        match entry_index(device.manifest.objects, next) {
            None => fetch_wanted(device, cursor, out, wanted),
            Some(i) => {
                let entry = device.manifest.objects[i];
                match stored_place(entry) {
                    Ok(object) if !entry.zero => (
                        device,
                        OutcomeView::Wait {
                            op: OpView::Read {
                                cursor,
                                remaining: 0,
                                out,
                                stage: ReadStageView::Probing { next, end, wanted, object },
                            },
                            action: ActionView::ReadFile {
                                path: object_path(
                                    device.store.cache_dir,
                                    object.object_id,
                                    object.generation,
                                ),
                            },
                        },
                    ),
                    _ => probe_on(device, cursor, out, (next + 1) as u64, end, wanted),
                }
            },
        }
    }
}

/// The message numbers of stored objects.
pub open spec fn message_ids(objects: Seq<StoredView>) -> Seq<i32> {
    Seq::new(objects.len(), |i: int| objects[i].remote.message_id)
}

/// Fetches the objects that were not found in the cache, all at once.
pub open spec fn fetch_wanted(
    device: DeviceView,
    cursor: int,
    out: Seq<u8>,
    wanted: Seq<StoredView>,
) -> (DeviceView, OutcomeView) {
    if wanted.len() == 0 {
        (device, OutcomeView::Finished { bytes: out })
    } else {
        (
            DeviceView {
                metrics: with_misses(device.metrics, wanted.len() as u64),
                ..device
            },
            OutcomeView::Wait {
                op: OpView::Read {
                    cursor,
                    remaining: 0,
                    out,
                    stage: ReadStageView::Fetching { wanted },
                },
                action: ActionView::FetchMany { ids: message_ids(wanted) },
            },
        )
    }
}

/// The payload is present, has the object's digest, and is its stored form.
pub open spec fn is_stored_form(object: StoredView, payload: Option<Seq<u8>>) -> bool {
    match payload {
        Some(bytes) => sha256_text(bytes) == object.sha256 && open_envelope(
            bytes,
            object.object_id,
            object.generation,
        ) is Ok,
        None => false,
    }
}

/// Saves the fetched objects from position `at` on to their cache files; those that
/// are absent or damaged are passed over.
pub open spec fn store_on(
    device: DeviceView,
    cursor: int,
    out: Seq<u8>,
    wanted: Seq<StoredView>,
    payloads: Seq<Option<Seq<u8>>>,
    at: int,
) -> OutcomeView
    decreases wanted.len() - at,
{
    if at < 0 || at >= wanted.len() || at >= payloads.len() {
        OutcomeView::Finished { bytes: out }
    } else if is_stored_form(wanted[at], payloads[at]) {
        OutcomeView::Wait {
            op: OpView::Read {
                cursor,
                remaining: 0,
                out,
                stage: ReadStageView::Storing { wanted, payloads, at },
            },
            action: ActionView::WriteFile {
                path: object_path(
                    device.store.cache_dir,
                    wanted[at].object_id,
                    wanted[at].generation,
                ),
                bytes: payloads[at]->0,
            },
        }
    } else {
        store_on(device, cursor, out, wanted, payloads, at + 1)
    }
}

/// A step without row operations.
pub open spec fn plain_step(next: (DeviceView, OutcomeView)) -> StepView {
    StepView { device: next.0, changes: Seq::empty(), outcome: next.1 }
}

/// A step with one row operation.
pub open spec fn changing_step(change: ChangeView, next: (DeviceView, OutcomeView)) -> StepView {
    StepView { device: next.0, changes: seq![change], outcome: next.1 }
}

/// The first step of a read.
pub open spec fn read_started(device: DeviceView, offset: int, len: int) -> StepView {
    if offset + len > device.map.device_size {
        plain_step((device, OutcomeView::Refused { error: DeviceError::ReadOutOfBounds }))
    } else {
        plain_step(read_on(device, offset, len, Seq::empty()))
    }
}

/// The next step of a read. What goes wrong while objects ahead are fetched ends the
/// read, which has its bytes by then, without an error.
pub open spec fn read_resumed(
    device: DeviceView,
    cursor: int,
    remaining: int,
    out: Seq<u8>,
    stage: ReadStageView,
    reply: ReplyView,
    now: Seq<char>,
) -> StepView {
    let done = plain_step((device, OutcomeView::Finished { bytes: out }));
    match stage {
        ReadStageView::Object { stage } => {
            let step = object_resumed(device, stage, reply, now);
            let place = place_at(device, cursor);
            let span = span_at(device, cursor, remaining);
            let next = match step.outcome {
                ObjectOutcomeView::Read { bytes } => read_on(
                    step.device,
                    cursor + span,
                    remaining - span,
                    out + bytes.subrange(place, place + span),
                ),
                ObjectOutcomeView::Refused { error } => (
                    step.device,
                    OutcomeView::Refused { error },
                ),
                ObjectOutcomeView::Wait { stage, action } => (
                    step.device,
                    OutcomeView::Wait {
                        op: OpView::Read {
                            cursor,
                            remaining,
                            out,
                            stage: ReadStageView::Object { stage },
                        },
                        action,
                    },
                ),
            };
            StepView { device: next.0, changes: step.changes, outcome: next.1 }
        },
        ReadStageView::Probing { next, end, wanted, object } => match reply {
            ReplyView::NoFile => plain_step(
                probe_on(device, cursor, out, (next + 1) as u64, end, wanted.push(object)),
            ),
            ReplyView::File { content } => if sha256_text(content) != object.sha256 {
                done
            } else {
                let change = touching(device, object, now);
                let after = DeviceView {
                    metrics: with_hit(device.metrics),
                    ..device_changed(device, change)
                };
                changing_step(
                    change,
                    probe_on(after, cursor, out, (next + 1) as u64, end, wanted),
                )
            },
            _ => done,
        },
        ReadStageView::Fetching { wanted } => match reply {
            ReplyView::Messages { payloads, ms } => {
                let after = DeviceView { metrics: with_download(device.metrics, ms), ..device };
                plain_step((after, store_on(after, cursor, out, wanted, payloads, 0)))
            },
            _ => done,
        },
        ReadStageView::Storing { wanted, payloads, at } => match reply {
            ReplyView::Done => {
                let change = saving(
                    device,
                    wanted[at].object_id,
                    wanted[at].generation,
                    payloads[at]->0,
                    false,
                    now,
                );
                let after = device_changed(device, change);
                changing_step(
                    change,
                    (after, store_on(after, cursor, out, wanted, payloads, at + 1)),
                )
            },
            _ => done,
        },
    }
}

/// `target` with `patch` in it from `at` on.
pub open spec fn patched(target: Seq<u8>, at: int, patch: Seq<u8>) -> Seq<u8> {
    target.take(at) + patch + target.skip(at + patch.len())
}

/// A write that has its input from position `at` on to put down from `cursor` on. An
/// object that is overwritten as a whole is not read.
pub open spec fn write_on(device: DeviceView, cursor: int, input: Seq<u8>, at: int) -> OutcomeView {
    if at >= input.len() {
        OutcomeView::Finished { bytes: Seq::empty() }
    } else {
        let span = span_at(device, cursor, input.len() - at);
        if span == object_size(device) {
            save_written(device, cursor, input, at, zeros(object_size(device)))
        } else {
            match object_started(device, object_at(device, cursor)) {
                ObjectOutcomeView::Read { bytes } => save_written(device, cursor, input, at, bytes),
                ObjectOutcomeView::Refused { error } => OutcomeView::Refused { error },
                ObjectOutcomeView::Wait { stage, action } => OutcomeView::Wait {
                    op: OpView::Write { cursor, input, at, stage: WriteStageView::Reading { stage } },
                    action,
                },
            }
        }
    }
}

/// Saves the object at the cursor, which held `object`, with its part of the input in
/// it, as the generation that the next commit will have.
pub open spec fn save_written(
    device: DeviceView,
    cursor: int,
    input: Seq<u8>,
    at: int,
    object: Seq<u8>,
) -> OutcomeView {
    if device.store.dirty.len() >= device.max_dirty_objects {
        OutcomeView::Refused { error: DeviceError::Backpressure }
    } else {
        let object_id = object_at(device, cursor);
        let span = span_at(device, cursor, input.len() - at);
        let generation = (device.manifest.generation + 1) as u64;
        let encoded = envelope_bytes(
            EnvelopeView {
                object_id,
                generation,
                object_size: device.map.object_size,
                flags: 0,
                payload: patched(
                    object,
                    place_at(device, cursor),
                    input.subrange(at, at + span),
                ),
            },
        );
        OutcomeView::Wait {
            op: OpView::Write {
                cursor,
                input,
                at,
                stage: WriteStageView::Saving { generation, encoded },
            },
            action: ActionView::WriteFile {
                path: object_path(device.store.cache_dir, object_id, generation),
                bytes: encoded,
            },
        }
    }
}

/// The first step of a write.
pub open spec fn write_started(device: DeviceView, offset: int, input: Seq<u8>) -> StepView {
    if offset + input.len() > device.map.device_size {
        plain_step((device, OutcomeView::Refused { error: DeviceError::WriteOutOfBounds }))
    } else {
        plain_step((device, write_on(device, offset, input, 0)))
    }
}

/// The row operations after a written object was saved: its cache file is recorded,
/// and the object is marked dirty.
pub open spec fn written_changes(
    device: DeviceView,
    object_id: u64,
    generation: u64,
    encoded: Seq<u8>,
    place: int,
    span: int,
    now: Seq<char>,
) -> Seq<ChangeView> {
    let change = saving(device, object_id, generation, encoded, true, now);
    seq![change] + dirty_changes(
        changed(device.store, change),
        DirtyView {
            object_id,
            generation,
            cache_path: object_path(device.store.cache_dir, object_id, generation),
            sha256: sha256_text(encoded),
        },
        place as u64,
        span as u64,
        now,
    )
}

/// The next step of a write.
pub open spec fn write_resumed(
    device: DeviceView,
    cursor: int,
    input: Seq<u8>,
    at: int,
    stage: WriteStageView,
    reply: ReplyView,
    now: Seq<char>,
) -> StepView {
    match stage {
        WriteStageView::Reading { stage } => {
            let step = object_resumed(device, stage, reply, now);
            StepView {
                device: step.device,
                changes: step.changes,
                outcome: match step.outcome {
                    ObjectOutcomeView::Read { bytes } => save_written(
                        step.device,
                        cursor,
                        input,
                        at,
                        bytes,
                    ),
                    ObjectOutcomeView::Refused { error } => OutcomeView::Refused { error },
                    ObjectOutcomeView::Wait { stage, action } => OutcomeView::Wait {
                        op: OpView::Write {
                            cursor,
                            input,
                            at,
                            stage: WriteStageView::Reading { stage },
                        },
                        action,
                    },
                },
            }
        },
        WriteStageView::Saving { generation, encoded } => match reply {
            ReplyView::Done => {
                let span = span_at(device, cursor, input.len() - at);
                let changes = written_changes(
                    device,
                    object_at(device, cursor),
                    generation,
                    encoded,
                    place_at(device, cursor),
                    span,
                    now,
                );
                let after = DeviceView {
                    store: crate::cache::changed_by(device.store, changes),
                    ..device
                };
                StepView {
                    device: after,
                    changes,
                    outcome: write_on(after, cursor + span, input, at + span),
                }
            },
            ReplyView::Failed => plain_step(
                (device, OutcomeView::Refused { error: DeviceError::Outside }),
            ),
            _ => plain_step(
                (device, OutcomeView::Refused { error: DeviceError::UnexpectedReply }),
            ),
        },
    }
}

/// The largest generation among dirty objects.
pub open spec fn newest(rows: Seq<DirtyView>) -> u64
    decreases rows.len(),
{
    if rows.len() == 0 {
        0
    } else {
        let rest = newest(rows.drop_last());
        if rows.last().generation > rest {
            rows.last().generation
        } else {
            rest
        }
    }
}

/// The first step of a flush: with nothing dirty there is nothing to do; otherwise the
/// manifest takes the newest generation.
pub open spec fn flush_started(device: DeviceView) -> StepView {
    let rows = device.store.dirty;
    if rows.len() == 0 {
        plain_step((device, OutcomeView::Finished { bytes: Seq::empty() }))
    } else {
        let after = DeviceView {
            manifest: ManifestView { generation: newest(rows), ..device.manifest },
            ..device
        };
        plain_step((after, flush_on(after, rows, 0)))
    }
}

/// A flush that has the dirty objects from position `at` on to upload; behind the last
/// one, the manifest is committed.
pub open spec fn flush_on(device: DeviceView, rows: Seq<DirtyView>, at: int) -> OutcomeView {
    if at < rows.len() {
        OutcomeView::Wait {
            op: OpView::Flush { rows, at, stage: FlushStageView::Reading },
            action: ActionView::ReadFile { path: rows[at].cache_path },
        }
    } else if device.has_committer {
        OutcomeView::Wait {
            op: OpView::Flush { rows, at, stage: FlushStageView::Committing },
            action: ActionView::Commit,
        }
    } else {
        OutcomeView::Wait {
            op: OpView::Flush { rows, at, stage: FlushStageView::Encoding },
            action: ActionView::EncodeManifest,
        }
    }
}

/// The manifest after an object was uploaded: the object's entry names the new remote
/// object, and the one it named before is garbage.
pub open spec fn manifest_with(
    manifest: ManifestView,
    i: int,
    row: DirtyView,
    remote: RemoteObjectRefView,
    sha256: Seq<char>,
) -> ManifestView {
    let entry = manifest.objects[i];
    ManifestView {
        garbage: match entry.remote {
            Some(before) => manifest.garbage.push(before),
            None => manifest.garbage,
        },
        objects: manifest.objects.update(
            i,
            ManifestObjectView {
                generation: row.generation,
                remote: Some(remote),
                sha256: Some(sha256),
                zero: false,
                ..entry
            },
        ),
        ..manifest
    }
}

/// The next step of a flush.
pub open spec fn flush_resumed(
    device: DeviceView,
    rows: Seq<DirtyView>,
    at: int,
    stage: FlushStageView,
    reply: ReplyView,
    now: Seq<char>,
) -> StepView {
    let refused = |error: DeviceError| plain_step((device, OutcomeView::Refused { error }));
    match (stage, reply) {
        (_, ReplyView::Failed) => refused(DeviceError::Outside),
        (FlushStageView::Reading, ReplyView::File { content }) => {
            let row = rows[at];
            match open_envelope(content, row.object_id, row.generation) {
                Err(error) => refused(DeviceError::Format(error)),
                Ok(_) => if sha256_text(content) != row.sha256 {
                    refused(DeviceError::DirtyChecksum { object_id: row.object_id })
                } else {
                    plain_step(
                        (
                            device,
                            OutcomeView::Wait {
                                op: OpView::Flush {
                                    rows,
                                    at,
                                    stage: FlushStageView::Sending { sha256: row.sha256 },
                                },
                                action: ActionView::Send {
                                    object_id: row.object_id,
                                    generation: row.generation,
                                    payload: content,
                                    sha256: row.sha256,
                                },
                            },
                        ),
                    )
                },
            }
        },
        (FlushStageView::Reading, ReplyView::NoFile) => refused(DeviceError::Outside),
        (FlushStageView::Sending { sha256 }, ReplyView::Sent { reference, ms }) => {
            let row = rows[at];
            let counted = DeviceView { metrics: with_upload(device.metrics, ms), ..device };
            match entry_index(device.manifest.objects, row.object_id) {
                None => plain_step(
                    (
                        counted,
                        OutcomeView::Refused {
                            error: DeviceError::ManifestMissing { object_id: row.object_id },
                        },
                    ),
                ),
                Some(i) => {
                    let after = DeviceView {
                        manifest: manifest_with(device.manifest, i, row, reference, sha256),
                        ..counted
                    };
                    plain_step((after, flush_on(after, rows, at + 1)))
                },
            }
        },
        (FlushStageView::Committing, ReplyView::Done) => plain_step(
            (
                device,
                OutcomeView::Wait {
                    op: OpView::Flush { rows, at, stage: FlushStageView::Encoding },
                    action: ActionView::EncodeManifest,
                },
            ),
        ),
        (FlushStageView::Encoding, ReplyView::Encoded { manifest }) => match first_repeat(
            device.manifest.objects,
        ) {
            Some(object_id) => refused(DeviceError::DuplicateObject { object_id }),
            None => {
                let replace = ChangeView::ReplaceManifest {
                    manifest: device.manifest,
                    hash: sha256_text(manifest),
                    encoded: manifest,
                    updated_at: now,
                };
                let clear = ChangeView::ClearDirtyAndWal;
                StepView {
                    device: device_changed(device_changed(device, replace), clear),
                    changes: seq![replace, clear],
                    outcome: OutcomeView::Finished { bytes: Seq::empty() },
                }
            },
        },
        _ => refused(DeviceError::UnexpectedReply),
    }
}

/// The next step of a request, after a reply.
pub open spec fn resumed(
    device: DeviceView,
    op: OpView,
    reply: ReplyView,
    now: Seq<char>,
) -> StepView {
    match op {
        OpView::Read { cursor, remaining, out, stage } => read_resumed(
            device,
            cursor,
            remaining,
            out,
            stage,
            reply,
            now,
        ),
        OpView::Write { cursor, input, at, stage } => write_resumed(
            device,
            cursor,
            input,
            at,
            stage,
            reply,
            now,
        ),
        OpView::Flush { rows, at, stage } => flush_resumed(device, rows, at, stage, reply, now),
    }
}

/// The request is one that this device has begun: its cursor stays within the device
/// and its positions within what they count.
pub open spec fn op_ok(device: DeviceView, op: OpView) -> bool {
    match op {
        OpView::Read { cursor, remaining, stage, .. } => {
            &&& 0 <= cursor
            &&& 0 <= remaining
            &&& cursor + remaining <= device.map.device_size
            &&& match stage {
                ReadStageView::Object { .. } => remaining > 0,
                ReadStageView::Probing { next, end, .. } => next < end,
                ReadStageView::Fetching { .. } => true,
                ReadStageView::Storing { wanted, payloads, at } => 0 <= at < wanted.len() && at
                    < payloads.len() && payloads[at] is Some,
            }
        },
        OpView::Write { cursor, input, at, .. } => {
            &&& 0 <= cursor
            &&& 0 <= at < input.len()
            &&& cursor + (input.len() - at) <= device.map.device_size
            &&& device.manifest.generation < u64::MAX
        },
        OpView::Flush { rows, at, stage } => match stage {
            FlushStageView::Reading => 0 <= at < rows.len(),
            FlushStageView::Sending { .. } => 0 <= at < rows.len(),
            FlushStageView::Committing => true,
            FlushStageView::Encoding => true,
        },
    }
}

} // verus!
