//! Getting a manifest back from the channel: following a superblock to the manifest,
//! falling back to the previous one, and rolling back to it.
use vstd::prelude::*;

use crate::backend::{RemoteObjectRef, RemoteObjectRefView};
use crate::clock::{now_utc, writable_time, Timestamp};
use crate::config::{ConfigView, TgDriveConfig};
use crate::device::payload_views;
use crate::digest::{sha256_hex, sha256_text};
use crate::envelope::{open_envelope, FormatError, ObjectEnvelope};
use crate::manifest::{
    leaf_ref_views, leaf_views, tree_manifest, LeafRefView, Manifest, ManifestEncoding,
    ManifestTreeError, ManifestTreeLeaf, ManifestTreeLeafRef, ManifestTreeRoot, ManifestView,
    TreeLeafView, TreeRootView,
};
use crate::store::opt_bytes_view;
use crate::superblock::{
    flat_superblock, manifest_ref_of, stepped_back, NoPrevious, Superblock, SuperblockView,
};
use crate::telegram::{check_fetched, fetch_problem, FetchError};
use crate::text::text_equal;

verus! {

/// Outside work that following a superblock asks for.
#[derive(Debug, PartialEq, Eq)]
pub enum FetchAction {
    /// Fetch the message that the reference names.
    Fetch { reference: RemoteObjectRef },
    /// Fetch several messages by their numbers.
    FetchMany { ids: Vec<i32> },
    DecodeManifest { payload: Vec<u8> },
    DecodeRoot { payload: Vec<u8> },
    DecodeLeaf { payload: Vec<u8> },
}

/// The value of a [`FetchAction`].
#[verifier::ext_equal]
pub enum FetchActionView {
    Fetch { reference: RemoteObjectRefView },
    FetchMany { ids: Seq<i32> },
    DecodeManifest { payload: Seq<u8> },
    DecodeRoot { payload: Seq<u8> },
    DecodeLeaf { payload: Seq<u8> },
}

impl View for FetchAction {
    type V = FetchActionView;

    open spec fn view(&self) -> FetchActionView {
        match self {
            FetchAction::Fetch { reference } => FetchActionView::Fetch { reference: reference@ },
            FetchAction::FetchMany { ids } => FetchActionView::FetchMany { ids: ids@ },
            FetchAction::DecodeManifest { payload } => FetchActionView::DecodeManifest {
                payload: payload@,
            },
            FetchAction::DecodeRoot { payload } => FetchActionView::DecodeRoot {
                payload: payload@,
            },
            FetchAction::DecodeLeaf { payload } => FetchActionView::DecodeLeaf {
                payload: payload@,
            },
        }
    }
}

/// What came of outside work.
#[derive(Debug, PartialEq, Eq)]
pub enum FetchReply {
    /// The payload of the message, if there is one.
    Fetched { payload: Option<Vec<u8>> },
    Messages { payloads: Vec<Option<Vec<u8>>> },
    Manifest { manifest: Manifest },
    Root { root: ManifestTreeRoot },
    Leaf { leaf: ManifestTreeLeaf },
    Failed,
}

/// The value of a [`FetchReply`].
#[verifier::ext_equal]
pub enum FetchReplyView {
    Fetched { payload: Option<Seq<u8>> },
    Messages { payloads: Seq<Option<Seq<u8>>> },
    Manifest { manifest: ManifestView },
    Root { root: TreeRootView },
    Leaf { leaf: TreeLeafView },
    Failed,
}

impl View for FetchReply {
    type V = FetchReplyView;

    open spec fn view(&self) -> FetchReplyView {
        match self {
            FetchReply::Fetched { payload } => FetchReplyView::Fetched {
                payload: opt_bytes_view(*payload),
            },
            FetchReply::Messages { payloads } => FetchReplyView::Messages {
                payloads: payload_views(payloads@),
            },
            FetchReply::Manifest { manifest } => FetchReplyView::Manifest { manifest: manifest@ },
            FetchReply::Root { root } => FetchReplyView::Root { root: root@ },
            FetchReply::Leaf { leaf } => FetchReplyView::Leaf { leaf: leaf@ },
            FetchReply::Failed => FetchReplyView::Failed,
        }
    }
}

/// How far the way from a superblock to its manifest has come.
#[derive(Debug, PartialEq, Eq)]
pub enum FetchOp {
    /// Fetching what the superblock names.
    Named { reference: RemoteObjectRef, encoding: ManifestEncoding },
    /// Decoding a flat manifest.
    Flat,
    /// Decoding the root of a tree.
    Root,
    /// Fetching the leaves of a tree.
    Leaves { root: ManifestTreeRoot },
    /// Decoding the leaf at `at`.
    Leaf {
        root: ManifestTreeRoot,
        payloads: Vec<Option<Vec<u8>>>,
        leaves: Vec<ManifestTreeLeaf>,
        at: usize,
    },
}

/// The value of a [`FetchOp`].
#[verifier::ext_equal]
pub enum FetchOpView {
    Named { reference: RemoteObjectRefView, encoding: ManifestEncoding },
    Flat,
    Root,
    Leaves { root: TreeRootView },
    Leaf {
        root: TreeRootView,
        payloads: Seq<Option<Seq<u8>>>,
        leaves: Seq<TreeLeafView>,
        at: int,
    },
}

impl View for FetchOp {
    type V = FetchOpView;

    open spec fn view(&self) -> FetchOpView {
        match self {
            FetchOp::Named { reference, encoding } => FetchOpView::Named {
                reference: reference@,
                encoding: *encoding,
            },
            FetchOp::Flat => FetchOpView::Flat,
            FetchOp::Root => FetchOpView::Root,
            FetchOp::Leaves { root } => FetchOpView::Leaves { root: root@ },
            FetchOp::Leaf { root, payloads, leaves, at } => FetchOpView::Leaf {
                root: root@,
                payloads: payload_views(payloads@),
                leaves: leaf_views(leaves@),
                at: *at as int,
            },
        }
    }
}

/// Why a superblock does not lead to a manifest.
#[derive(Debug, Clone, Copy, PartialEq, Eq, Structural)]
pub enum ManifestFetchError {
    /// What the superblock names is not there, or damaged.
    Named(FetchError),
    LeafMissing { leaf_index: u64 },
    LeafFormat(FormatError),
    LeafChecksum,
    /// The leaves do not make up a manifest.
    Tree(ManifestTreeError),
    /// Work outside failed.
    Outside,
    /// The reply does not fit the work that was asked for.
    UnexpectedReply,
}

/// What comes next on the way to the manifest.
#[derive(Debug, PartialEq, Eq)]
pub enum FetchStep {
    Wait { op: FetchOp, action: FetchAction },
    Found { manifest: Manifest },
    Refused { error: ManifestFetchError },
}

/// The value of a [`FetchStep`].
#[verifier::ext_equal]
pub enum FetchStepView {
    Wait { op: FetchOpView, action: FetchActionView },
    Found { manifest: ManifestView },
    Refused { error: ManifestFetchError },
}

impl View for FetchStep {
    type V = FetchStepView;

    open spec fn view(&self) -> FetchStepView {
        match self {
            FetchStep::Wait { op, action } => FetchStepView::Wait { op: op@, action: action@ },
            FetchStep::Found { manifest } => FetchStepView::Found { manifest: manifest@ },
            FetchStep::Refused { error } => FetchStepView::Refused { error: *error },
        }
    }
}

/// The first step from a superblock to its manifest.
pub open spec fn fetch_started(superblock: SuperblockView, chat_id: i64) -> FetchStepView {
    let reference = manifest_ref_of(superblock, chat_id);
    FetchStepView::Wait {
        op: FetchOpView::Named { reference, encoding: superblock.manifest_encoding },
        action: FetchActionView::Fetch { reference },
    }
}

/// What the fetched message of a leaf holds.
pub open spec fn leaf_payload(reference: LeafRefView, payload: Option<Seq<u8>>) -> Result<
    Seq<u8>,
    ManifestFetchError,
> {
    match payload {
        None => Err(ManifestFetchError::LeafMissing { leaf_index: reference.leaf_index }),
        Some(bytes) => match open_envelope(
            bytes,
            reference.remote.object_id,
            reference.remote.generation,
        ) {
            Err(error) => Err(ManifestFetchError::LeafFormat(error)),
            Ok(envelope) => if sha256_text(bytes) != reference.remote.sha256 {
                Err(ManifestFetchError::LeafChecksum)
            } else {
                Ok(envelope.payload)
            },
        },
    }
}

/// The leaves from position `at` on are to be decoded; behind the last one the manifest
/// is put together.
pub open spec fn leaves_on(
    root: TreeRootView,
    payloads: Seq<Option<Seq<u8>>>,
    leaves: Seq<TreeLeafView>,
    at: int,
) -> FetchStepView {
    if at < root.leaves.len() && at < payloads.len() {
        match leaf_payload(root.leaves[at], payloads[at]) {
            Err(error) => FetchStepView::Refused { error },
            Ok(payload) => FetchStepView::Wait {
                op: FetchOpView::Leaf { root, payloads, leaves, at },
                action: FetchActionView::DecodeLeaf { payload },
            },
        }
    } else {
        match tree_manifest(root, leaves) {
            Ok(manifest) => FetchStepView::Found { manifest },
            Err(error) => FetchStepView::Refused { error: ManifestFetchError::Tree(error) },
        }
    }
}

/// The message numbers of the leaves.
pub open spec fn leaf_ids(root: TreeRootView) -> Seq<i32> {
    Seq::new(root.leaves.len(), |i: int| root.leaves[i].remote.message_id)
}

/// The next step from a superblock to its manifest, after a reply.
pub open spec fn fetch_resumed(op: FetchOpView, reply: FetchReplyView) -> FetchStepView {
    match (op, reply) {
        (_, FetchReplyView::Failed) => FetchStepView::Refused {
            error: ManifestFetchError::Outside,
        },
        (FetchOpView::Named { reference, encoding }, FetchReplyView::Fetched { payload }) => {
            match fetch_problem(reference, payload) {
                Some(problem) => FetchStepView::Refused {
                    error: ManifestFetchError::Named(problem),
                },
                None => {
                    let inner = open_envelope(
                        payload->0,
                        reference.object_id,
                        reference.generation,
                    )->Ok_0.payload;
                    match encoding {
                        ManifestEncoding::FlatJson => FetchStepView::Wait {
                            op: FetchOpView::Flat,
                            action: FetchActionView::DecodeManifest { payload: inner },
                        },
                        ManifestEncoding::Tree => FetchStepView::Wait {
                            op: FetchOpView::Root,
                            action: FetchActionView::DecodeRoot { payload: inner },
                        },
                    }
                },
            }
        },
        (FetchOpView::Flat, FetchReplyView::Manifest { manifest }) => FetchStepView::Found {
            manifest,
        },
        (FetchOpView::Root, FetchReplyView::Root { root }) => FetchStepView::Wait {
            op: FetchOpView::Leaves { root },
            action: FetchActionView::FetchMany { ids: leaf_ids(root) },
        },
        (FetchOpView::Leaves { root }, FetchReplyView::Messages { payloads }) => leaves_on(
            root,
            payloads,
            Seq::empty(),
            0,
        ),
        (FetchOpView::Leaf { root, payloads, leaves, at }, FetchReplyView::Leaf { leaf }) => {
            leaves_on(root, payloads, leaves.push(leaf), at + 1)
        },
        _ => FetchStepView::Refused { error: ManifestFetchError::UnexpectedReply },
    }
}

/// The position is one of a leaf.
pub open spec fn fetch_ok(op: FetchOpView) -> bool {
    match op {
        FetchOpView::Leaf { root, payloads, at, .. } => 0 <= at < root.leaves.len() && at
            < payloads.len(),
        _ => true,
    }
}

fn open_leaf(reference: &ManifestTreeLeafRef, payload: &Option<Vec<u8>>) -> (result: Result<
    Vec<u8>,
    ManifestFetchError,
>)
    ensures
        match result {
            Ok(bytes) => leaf_payload(reference@, opt_bytes_view(*payload)) == Ok::<
                Seq<u8>,
                ManifestFetchError,
            >(bytes@),
            Err(error) => leaf_payload(reference@, opt_bytes_view(*payload)) == Err::<
                Seq<u8>,
                ManifestFetchError,
            >(error),
        },
{
    let bytes = match payload {
        None => {
            return Err(ManifestFetchError::LeafMissing { leaf_index: reference.leaf_index });
        },
        Some(bytes) => bytes,
    };
    match ObjectEnvelope::decode(
        bytes.as_slice(),
        reference.remote.object_id,
        reference.remote.generation,
    ) {
        Err(error) => Err(ManifestFetchError::LeafFormat(error)),
        Ok(envelope) => {
            let sha = sha256_hex(bytes.as_slice());
            if !text_equal(sha.as_str(), reference.remote.sha256.as_str()) {
                return Err(ManifestFetchError::LeafChecksum);
            }
            Ok(envelope.payload)
        },
    }
}

fn continue_leaves(
    root: ManifestTreeRoot,
    payloads: Vec<Option<Vec<u8>>>,
    leaves: Vec<ManifestTreeLeaf>,
    at: usize,
) -> (step: FetchStep)
    ensures
        step@ == leaves_on(root@, payload_views(payloads@), leaf_views(leaves@), at as int),
        step matches FetchStep::Wait { op, .. } ==> fetch_ok(op@),
{
    if at < root.leaves.len() && at < payloads.len() {
        proof {
            assert(leaf_ref_views(root.leaves@)[at as int] == root.leaves@[at as int]@);
            assert(payload_views(payloads@)[at as int] == opt_bytes_view(payloads@[at as int]));
        }
        match open_leaf(&root.leaves[at], &payloads[at]) {
            Err(error) => FetchStep::Refused { error },
            Ok(payload) => FetchStep::Wait {
                op: FetchOp::Leaf { root, payloads, leaves, at },
                action: FetchAction::DecodeLeaf { payload },
            },
        }
    } else {
        match Manifest::from_tree_root_and_leaves(root, leaves) {
            Ok(manifest) => FetchStep::Found { manifest },
            Err(error) => FetchStep::Refused { error: ManifestFetchError::Tree(error) },
        }
    }
}

impl Superblock {
    /// Begins to fetch the manifest that this superblock leads to.
    pub fn start_fetch(&self, chat_id: i64) -> (step: FetchStep)
        ensures
            step@ == fetch_started(self@, chat_id),
            step matches FetchStep::Wait { op, .. } ==> fetch_ok(op@),
    {
        let reference = self.manifest_ref(chat_id);
        FetchStep::Wait {
            op: FetchOp::Named {
                reference: reference.clone(),
                encoding: self.manifest_encoding,
            },
            action: FetchAction::Fetch { reference },
        }
    }
}

/// Goes on fetching a manifest, after a reply.
pub fn resume_fetch(op: FetchOp, reply: FetchReply) -> (step: FetchStep)
    requires
        fetch_ok(op@),
    ensures
        step@ == fetch_resumed(op@, reply@),
        step matches FetchStep::Wait { op, .. } ==> fetch_ok(op@),
{
    match (op, reply) {
        (_, FetchReply::Failed) => FetchStep::Refused { error: ManifestFetchError::Outside },
        (FetchOp::Named { reference, encoding }, FetchReply::Fetched { payload }) => {
            let bytes = match check_fetched(&reference, payload) {
                Err(problem) => {
                    return FetchStep::Refused { error: ManifestFetchError::Named(problem) };
                },
                Ok(bytes) => bytes,
            };
            let envelope = match ObjectEnvelope::decode(
                bytes.as_slice(),
                reference.object_id,
                reference.generation,
            ) {
                Ok(envelope) => envelope,
                Err(error) => {
                    return FetchStep::Refused {
                        error: ManifestFetchError::Named(FetchError::Format(error)),
                    };
                },
            };
            match encoding {
                ManifestEncoding::FlatJson => FetchStep::Wait {
                    op: FetchOp::Flat,
                    action: FetchAction::DecodeManifest { payload: envelope.payload },
                },
                ManifestEncoding::Tree => FetchStep::Wait {
                    op: FetchOp::Root,
                    action: FetchAction::DecodeRoot { payload: envelope.payload },
                },
            }
        },
        (FetchOp::Flat, FetchReply::Manifest { manifest }) => FetchStep::Found { manifest },
        (FetchOp::Root, FetchReply::Root { root }) => {
            let ids = root.leaf_message_ids();
            assert(ids@ =~= leaf_ids(root@));
            FetchStep::Wait {
                op: FetchOp::Leaves { root },
                action: FetchAction::FetchMany { ids },
            }
        },
        (FetchOp::Leaves { root }, FetchReply::Messages { payloads }) => {
            let leaves: Vec<ManifestTreeLeaf> = Vec::new();
            assert(leaf_views(leaves@) =~= Seq::<TreeLeafView>::empty());
            continue_leaves(root, payloads, leaves, 0)
        },
        (FetchOp::Leaf { root, payloads, leaves, at }, FetchReply::Leaf { leaf }) => {
            assert(at < payloads.len());
            let ghost sofar = leaf_views(leaves@);
            let ghost added = leaf@;
            let mut leaves = leaves;
            leaves.push(leaf);
            assert(leaf_views(leaves@) =~= sofar.push(added));
            continue_leaves(root, payloads, leaves, at + 1)
        },
        _ => FetchStep::Refused { error: ManifestFetchError::UnexpectedReply },
    }
}

/// Why the device cannot be recovered from the channel.
#[derive(Debug, Clone, Copy, PartialEq, Eq, Structural)]
pub enum RecoverError {
    /// No message holds a superblock.
    NoSuperblock,
    DeviceSize,
    ObjectSize,
    /// The current manifest is damaged, and the previous one is not fully named.
    NoPrevious(NoPrevious),
    /// Neither the current nor the previous manifest can be fetched.
    Fetch,
    /// The manifest is that of another device.
    DeviceUuid,
}

/// What is done next to recover the device.
#[derive(Debug, PartialEq, Eq)]
pub enum RecoverStep {
    /// Fetch the manifest that the superblock leads to; it is the current one, or else
    /// the one before it.
    Fetch { superblock: Superblock, current: bool },
    Recovered { manifest: Manifest },
    Refused { error: RecoverError },
}

/// The value of a [`RecoverStep`].
#[verifier::ext_equal]
pub enum RecoverStepView {
    Fetch { superblock: SuperblockView, current: bool },
    Recovered { manifest: ManifestView },
    Refused { error: RecoverError },
}

impl View for RecoverStep {
    type V = RecoverStepView;

    open spec fn view(&self) -> RecoverStepView {
        match self {
            RecoverStep::Fetch { superblock, current } => RecoverStepView::Fetch {
                superblock: superblock@,
                current: *current,
            },
            RecoverStep::Recovered { manifest } => RecoverStepView::Recovered {
                manifest: manifest@,
            },
            RecoverStep::Refused { error } => RecoverStepView::Refused { error: *error },
        }
    }
}

/// The first step of recovery: the superblock must have the sizes that are set.
pub open spec fn recovery_started(
    config: ConfigView,
    superblock: Option<SuperblockView>,
) -> RecoverStepView {
    match superblock {
        None => RecoverStepView::Refused { error: RecoverError::NoSuperblock },
        Some(found) => if found.device_size != config.device_size {
            RecoverStepView::Refused { error: RecoverError::DeviceSize }
        } else if found.object_size != config.object_size {
            RecoverStepView::Refused { error: RecoverError::ObjectSize }
        } else {
            RecoverStepView::Fetch { superblock: found, current: true }
        },
    }
}

/// The next step of recovery: a manifest that was fetched must be the device's; where
/// the current one could not be fetched, the previous one is.
pub open spec fn recovery_resumed(
    superblock: SuperblockView,
    current: bool,
    fetched: Option<ManifestView>,
) -> RecoverStepView {
    match fetched {
        Some(manifest) => if manifest.device_uuid == superblock.device_uuid {
            RecoverStepView::Recovered { manifest }
        } else {
            RecoverStepView::Refused { error: RecoverError::DeviceUuid }
        },
        None => if !current {
            RecoverStepView::Refused { error: RecoverError::Fetch }
        } else {
            match stepped_back(superblock) {
                Ok(previous) => RecoverStepView::Fetch { superblock: previous, current: false },
                Err(missing) => RecoverStepView::Refused {
                    error: RecoverError::NoPrevious(missing),
                },
            }
        },
    }
}

/// Begins to recover the device from the superblock that was found.
pub fn start_recovery(config: &TgDriveConfig, superblock: Option<Superblock>) -> (step: RecoverStep)
    ensures
        step@ == recovery_started(
            config@,
            match superblock {
                Some(s) => Some(s@),
                None => None,
            },
        ),
{
    let found = match superblock {
        None => {
            return RecoverStep::Refused { error: RecoverError::NoSuperblock };
        },
        Some(found) => found,
    };
    if found.device_size != config.device_size {
        return RecoverStep::Refused { error: RecoverError::DeviceSize };
    }
    if found.object_size != config.object_size {
        return RecoverStep::Refused { error: RecoverError::ObjectSize };
    }
    RecoverStep::Fetch { superblock: found, current: true }
}

/// Goes on to recover the device, after its manifest was fetched or could not be.
pub fn resume_recovery(superblock: &Superblock, current: bool, fetched: Option<Manifest>) -> (step:
    RecoverStep)
    ensures
        step@ == recovery_resumed(
            superblock@,
            current,
            match fetched {
                Some(m) => Some(m@),
                None => None,
            },
        ),
{
    match fetched {
        Some(manifest) => if manifest.device_uuid == superblock.device_uuid {
            RecoverStep::Recovered { manifest }
        } else {
            RecoverStep::Refused { error: RecoverError::DeviceUuid }
        },
        None => {
            if !current {
                return RecoverStep::Refused { error: RecoverError::Fetch };
            }
            match superblock.step_back() {
                Ok(previous) => RecoverStep::Fetch { superblock: previous, current: false },
                Err(missing) => RecoverStep::Refused { error: RecoverError::NoPrevious(missing) },
            }
        },
    }
}

/// Tells whether a local manifest belongs to the device whose superblock the channel
/// holds; a channel without one does not contradict it.
pub fn same_device(manifest: &Manifest, superblock: Option<&Superblock>) -> (same: bool)
    ensures
        same == match superblock {
            Some(found) => found.device_uuid == manifest.device_uuid,
            None => true,
        },
{
    match superblock {
        Some(found) => found.device_uuid == manifest.device_uuid,
        None => true,
    }
}

/// The superblock that leads back to the previous manifest, with the given identity, at
/// the time `now`.
pub open spec fn rolled_back(
    current: SuperblockView,
    device_uuid: u128,
    chat_id: i64,
    now: Timestamp,
) -> Result<SuperblockView, NoPrevious> {
    match stepped_back(current) {
        Err(missing) => Err(missing),
        Ok(previous) => Ok(
            flat_superblock(
                device_uuid,
                current.device_size,
                current.logical_sector_size,
                current.object_size,
                manifest_ref_of(previous, chat_id),
                Some(current),
                now,
            ),
        ),
    }
}

impl Superblock {
    /// The superblock that leads back to the previous manifest, at the time `now`.
    pub fn roll_back_at(&self, device_uuid: u128, chat_id: i64, now: Timestamp) -> (result: Result<
        Superblock,
        NoPrevious,
    >)
        ensures
            match result {
                Ok(back) => rolled_back(self@, device_uuid, chat_id, now) == Ok::<
                    SuperblockView,
                    NoPrevious,
                >(back@),
                Err(missing) => rolled_back(self@, device_uuid, chat_id, now) == Err::<
                    SuperblockView,
                    NoPrevious,
                >(missing),
            },
    {
        let previous = match self.step_back() {
            Ok(previous) => previous,
            Err(missing) => {
                return Err(missing);
            },
        };
        let reference = previous.manifest_ref(chat_id);
        Ok(
            Superblock::for_manifest_at(
                device_uuid,
                self.device_size,
                self.logical_sector_size,
                self.object_size,
                &reference,
                Some(self),
                now,
            ),
        )
    }

    /// The superblock that leads back to the previous manifest.
    pub fn roll_back(&self, device_uuid: u128, chat_id: i64) -> (result: Result<
        Superblock,
        NoPrevious,
    >)
        ensures
            match result {
                Ok(back) => back.last_commit_at.offset_seconds == 0 && writable_time(
                    back.last_commit_at.unix_nanos as int,
                ) && rolled_back(self@, device_uuid, chat_id, back.last_commit_at) == Ok::<
                    SuperblockView,
                    NoPrevious,
                >(back@),
                Err(missing) => stepped_back(self@) == Err::<SuperblockView, NoPrevious>(missing),
            },
    {
        let now = now_utc();
        self.roll_back_at(device_uuid, chat_id, now)
    }
}

} // verus!
