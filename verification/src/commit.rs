//! Committing a manifest to the channel: the manifest is uploaded, read back and
//! checked, and then a superblock that leads to it is published.
use vstd::prelude::*;

use crate::backend::{RemoteObjectRef, RemoteObjectRefView};
use crate::block::BlockMap;
use crate::clock::{now_utc, writable_time, Timestamp};
use crate::digest::{sha256_hex, sha256_text};
use crate::envelope::{envelope_bytes, EnvelopeView, ObjectEnvelope};
use crate::manifest::{
    leaf_ref_views, leaf_views, manifest_leaves, run_count, tree_root_of, LeafRefView, Manifest,
    ManifestTreeLeaf, ManifestTreeLeafRef, ManifestTreeRoot, ManifestView, TreeLeafView,
    TreeRootView, MANIFEST_OBJECT_ID, MANIFEST_TREE_LEAF_BASE_OBJECT_ID, MANIFEST_TREE_LEAF_SPAN,
};
use crate::store::opt_bytes_view;
use crate::superblock::{
    flat_superblock, superblock_prefix, tree_superblock, Superblock, SuperblockView,
};
use crate::telegram::{check_fetched, fetch_problem, FetchError};

verus! {

/// Outside work that a commit asks for.
#[derive(Debug, PartialEq, Eq)]
pub enum CommitAction {
    /// Encode the whole manifest.
    EncodeManifest,
    EncodeLeaf { leaf: ManifestTreeLeaf },
    EncodeRoot { root: ManifestTreeRoot },
    Send { object_id: u64, generation: u64, payload: Vec<u8>, sha256: String },
    /// Fetch the message that the reference names.
    Fetch { reference: RemoteObjectRef },
    /// Read the superblock that is pinned now.
    ReadPinned,
    EncodeSuperblock { superblock: Superblock },
    /// Publish the text of the new superblock.
    Publish { text: String },
}

/// The value of a [`CommitAction`].
#[verifier::ext_equal]
pub enum CommitActionView {
    EncodeManifest,
    EncodeLeaf { leaf: TreeLeafView },
    EncodeRoot { root: TreeRootView },
    Send { object_id: u64, generation: u64, payload: Seq<u8>, sha256: Seq<char> },
    Fetch { reference: RemoteObjectRefView },
    ReadPinned,
    EncodeSuperblock { superblock: SuperblockView },
    Publish { text: Seq<char> },
}

impl View for CommitAction {
    type V = CommitActionView;

    open spec fn view(&self) -> CommitActionView {
        match self {
            CommitAction::EncodeManifest => CommitActionView::EncodeManifest,
            CommitAction::EncodeLeaf { leaf } => CommitActionView::EncodeLeaf { leaf: leaf@ },
            CommitAction::EncodeRoot { root } => CommitActionView::EncodeRoot { root: root@ },
            CommitAction::Send { object_id, generation, payload, sha256 } => {
                CommitActionView::Send {
                    object_id: *object_id,
                    generation: *generation,
                    payload: payload@,
                    sha256: sha256@,
                }
            },
            CommitAction::Fetch { reference } => CommitActionView::Fetch {
                reference: reference@,
            },
            CommitAction::ReadPinned => CommitActionView::ReadPinned,
            CommitAction::EncodeSuperblock { superblock } => CommitActionView::EncodeSuperblock {
                superblock: superblock@,
            },
            CommitAction::Publish { text } => CommitActionView::Publish { text: text@ },
        }
    }
}

/// What came of outside work.
#[derive(Debug, PartialEq, Eq)]
pub enum CommitReply {
    Encoded { bytes: Vec<u8> },
    Sent { reference: RemoteObjectRef },
    /// The payload of the message, if there is one.
    Fetched { payload: Option<Vec<u8>> },
    /// The pinned superblock, if there is one.
    Pinned { superblock: Option<Superblock> },
    /// The encoded fields of a superblock.
    Text { encoded: String },
    Published,
    Failed,
}

/// The value of a [`CommitReply`].
#[verifier::ext_equal]
pub enum CommitReplyView {
    Encoded { bytes: Seq<u8> },
    Sent { reference: RemoteObjectRefView },
    Fetched { payload: Option<Seq<u8>> },
    Pinned { superblock: Option<SuperblockView> },
    Text { encoded: Seq<char> },
    Published,
    Failed,
}

impl View for CommitReply {
    type V = CommitReplyView;

    open spec fn view(&self) -> CommitReplyView {
        match self {
            CommitReply::Encoded { bytes } => CommitReplyView::Encoded { bytes: bytes@ },
            CommitReply::Sent { reference } => CommitReplyView::Sent { reference: reference@ },
            CommitReply::Fetched { payload } => CommitReplyView::Fetched {
                payload: opt_bytes_view(*payload),
            },
            CommitReply::Pinned { superblock } => CommitReplyView::Pinned {
                superblock: match superblock {
                    Some(s) => Some(s@),
                    None => None,
                },
            },
            CommitReply::Text { encoded } => CommitReplyView::Text { encoded: encoded@ },
            CommitReply::Published => CommitReplyView::Published,
            CommitReply::Failed => CommitReplyView::Failed,
        }
    }
}

/// How far a commit has come.
#[derive(Debug, PartialEq, Eq)]
pub enum CommitStage {
    EncodeFlat,
    EncodeLeaf { at: usize },
    SendLeaf { at: usize },
    EncodeRoot,
    /// Uploading the manifest or its root.
    SendRoot,
    /// Reading back what was uploaded.
    CheckRoot { reference: RemoteObjectRef },
    ReadPinned { reference: RemoteObjectRef },
    EncodeSuperblock,
    Publish,
}

/// The value of a [`CommitStage`].
#[verifier::ext_equal]
pub enum CommitStageView {
    EncodeFlat,
    EncodeLeaf { at: int },
    SendLeaf { at: int },
    EncodeRoot,
    SendRoot,
    CheckRoot { reference: RemoteObjectRefView },
    ReadPinned { reference: RemoteObjectRefView },
    EncodeSuperblock,
    Publish,
}

impl View for CommitStage {
    type V = CommitStageView;

    open spec fn view(&self) -> CommitStageView {
        match self {
            CommitStage::EncodeFlat => CommitStageView::EncodeFlat,
            CommitStage::EncodeLeaf { at } => CommitStageView::EncodeLeaf { at: *at as int },
            CommitStage::SendLeaf { at } => CommitStageView::SendLeaf { at: *at as int },
            CommitStage::EncodeRoot => CommitStageView::EncodeRoot,
            CommitStage::SendRoot => CommitStageView::SendRoot,
            CommitStage::CheckRoot { reference } => CommitStageView::CheckRoot {
                reference: reference@,
            },
            CommitStage::ReadPinned { reference } => CommitStageView::ReadPinned {
                reference: reference@,
            },
            CommitStage::EncodeSuperblock => CommitStageView::EncodeSuperblock,
            CommitStage::Publish => CommitStageView::Publish,
        }
    }
}

/// A commit in progress: the leaves to upload, where the first of them went, and how
/// far it has come.
#[derive(Debug, PartialEq, Eq)]
pub struct CommitOp {
    pub leaves: Vec<ManifestTreeLeaf>,
    pub refs: Vec<ManifestTreeLeafRef>,
    pub stage: CommitStage,
}

/// The value of a [`CommitOp`].
#[verifier::ext_equal]
pub struct CommitOpView {
    pub leaves: Seq<TreeLeafView>,
    pub refs: Seq<LeafRefView>,
    pub stage: CommitStageView,
}

impl View for CommitOp {
    type V = CommitOpView;

    open spec fn view(&self) -> CommitOpView {
        CommitOpView {
            leaves: leaf_views(self.leaves@),
            refs: leaf_ref_views(self.refs@),
            stage: self.stage@,
        }
    }
}

/// Why a commit fails.
#[derive(Debug, Clone, Copy, PartialEq, Eq, Structural)]
pub enum CommitError {
    /// What was uploaded did not come back as it was.
    ReadBack(FetchError),
    /// Work outside the commit failed.
    Outside,
    /// The reply does not fit the work that was asked for.
    UnexpectedReply,
}

/// What a commit comes to next.
#[derive(Debug, PartialEq, Eq)]
pub enum CommitStep {
    Wait { op: CommitOp, action: CommitAction },
    Finished,
    Refused { error: CommitError },
}

/// The value of a [`CommitStep`].
#[verifier::ext_equal]
pub enum CommitStepView {
    Wait { op: CommitOpView, action: CommitActionView },
    Finished,
    Refused { error: CommitError },
}

impl View for CommitStep {
    type V = CommitStepView;

    open spec fn view(&self) -> CommitStepView {
        match self {
            CommitStep::Wait { op, action } => CommitStepView::Wait { op: op@, action: action@ },
            CommitStep::Finished => CommitStepView::Finished,
            CommitStep::Refused { error } => CommitStepView::Refused { error: *error },
        }
    }
}

/// A manifest with more objects than one leaf lists is stored as a tree.
pub open spec fn is_tree(manifest: ManifestView) -> bool {
    manifest.objects.len() > MANIFEST_TREE_LEAF_SPAN
}

/// The stored form of a part of the manifest.
pub open spec fn framed(
    object_id: u64,
    generation: u64,
    object_size: u32,
    payload: Seq<u8>,
) -> Seq<u8> {
    envelope_bytes(EnvelopeView { object_id, generation, object_size, flags: 0, payload })
}

/// The object number under which a leaf is stored.
pub open spec fn leaf_object_id(leaf_index: u64) -> u64 {
    (MANIFEST_TREE_LEAF_BASE_OBJECT_ID - leaf_index) as u64
}

/// Uploads a part of the manifest.
pub open spec fn sending(
    manifest: ManifestView,
    map: BlockMap,
    object_id: u64,
    payload: Seq<u8>,
) -> CommitActionView {
    let encoded = framed(object_id, manifest.generation, map.object_size, payload);
    CommitActionView::Send {
        object_id,
        generation: manifest.generation,
        payload: encoded,
        sha256: sha256_text(encoded),
    }
}

/// A commit that has the leaves from position `at` on to upload; behind the last one
/// comes the root.
pub open spec fn leaf_on(
    manifest: ManifestView,
    leaves: Seq<TreeLeafView>,
    refs: Seq<LeafRefView>,
    at: int,
) -> CommitStepView {
    if at < leaves.len() {
        CommitStepView::Wait {
            op: CommitOpView { leaves, refs, stage: CommitStageView::EncodeLeaf { at } },
            action: CommitActionView::EncodeLeaf { leaf: leaves[at] },
        }
    } else {
        CommitStepView::Wait {
            op: CommitOpView { leaves, refs, stage: CommitStageView::EncodeRoot },
            action: CommitActionView::EncodeRoot { root: tree_root_of(manifest, refs) },
        }
    }
}

/// The first step of a commit.
pub open spec fn commit_started(manifest: ManifestView) -> CommitStepView {
    if is_tree(manifest) {
        leaf_on(
            manifest,
            manifest_leaves(manifest, MANIFEST_TREE_LEAF_SPAN as nat),
            Seq::empty(),
            0,
        )
    } else {
        CommitStepView::Wait {
            op: CommitOpView {
                leaves: Seq::empty(),
                refs: Seq::empty(),
                stage: CommitStageView::EncodeFlat,
            },
            action: CommitActionView::EncodeManifest,
        }
    }
}

/// The superblock that leads to a manifest uploaded as `reference`.
pub open spec fn new_superblock(
    manifest: ManifestView,
    map: BlockMap,
    reference: RemoteObjectRefView,
    previous: Option<SuperblockView>,
    now: Timestamp,
) -> SuperblockView {
    if is_tree(manifest) {
        tree_superblock(
            manifest.device_uuid,
            map.device_size,
            map.logical_sector_size,
            map.object_size,
            reference,
            previous,
            now,
        )
    } else {
        flat_superblock(
            manifest.device_uuid,
            map.device_size,
            map.logical_sector_size,
            map.object_size,
            reference,
            previous,
            now,
        )
    }
}

/// Where a leaf went.
pub open spec fn leaf_ref(leaf: TreeLeafView, remote: RemoteObjectRefView) -> LeafRefView {
    LeafRefView {
        leaf_index: leaf.leaf_index,
        start_object_id: leaf.start_object_id,
        object_count: leaf.objects.len() as u64,
        remote,
    }
}

/// The next step of a commit, after a reply.
pub open spec fn commit_resumed(
    manifest: ManifestView,
    map: BlockMap,
    op: CommitOpView,
    reply: CommitReplyView,
    now: Timestamp,
) -> CommitStepView {
    let leaves = op.leaves;
    let refs = op.refs;
    match (op.stage, reply) {
        (_, CommitReplyView::Failed) => CommitStepView::Refused { error: CommitError::Outside },
        (CommitStageView::EncodeFlat, CommitReplyView::Encoded { bytes }) => CommitStepView::Wait {
            op: CommitOpView { stage: CommitStageView::SendRoot, ..op },
            action: sending(manifest, map, MANIFEST_OBJECT_ID, bytes),
        },
        (CommitStageView::EncodeRoot, CommitReplyView::Encoded { bytes }) => CommitStepView::Wait {
            op: CommitOpView { stage: CommitStageView::SendRoot, ..op },
            action: sending(manifest, map, MANIFEST_OBJECT_ID, bytes),
        },
        (CommitStageView::EncodeLeaf { at }, CommitReplyView::Encoded { bytes }) => {
            CommitStepView::Wait {
                op: CommitOpView { stage: CommitStageView::SendLeaf { at }, ..op },
                action: sending(manifest, map, leaf_object_id(leaves[at].leaf_index), bytes),
            }
        },
        (CommitStageView::SendLeaf { at }, CommitReplyView::Sent { reference }) => leaf_on(
            manifest,
            leaves,
            refs.push(leaf_ref(leaves[at], reference)),
            at + 1,
        ),
        (CommitStageView::SendRoot, CommitReplyView::Sent { reference }) => CommitStepView::Wait {
            op: CommitOpView { stage: CommitStageView::CheckRoot { reference }, ..op },
            action: CommitActionView::Fetch { reference },
        },
        (CommitStageView::CheckRoot { reference }, CommitReplyView::Fetched { payload }) => {
            match fetch_problem(reference, payload) {
                Some(problem) => CommitStepView::Refused { error: CommitError::ReadBack(problem) },
                None => CommitStepView::Wait {
                    op: CommitOpView { stage: CommitStageView::ReadPinned { reference }, ..op },
                    action: CommitActionView::ReadPinned,
                },
            }
        },
        (CommitStageView::ReadPinned { reference }, CommitReplyView::Pinned { superblock }) => {
            CommitStepView::Wait {
                op: CommitOpView { stage: CommitStageView::EncodeSuperblock, ..op },
                action: CommitActionView::EncodeSuperblock {
                    superblock: new_superblock(manifest, map, reference, superblock, now),
                },
            }
        },
        (CommitStageView::EncodeSuperblock, CommitReplyView::Text { encoded }) => {
            CommitStepView::Wait {
                op: CommitOpView { stage: CommitStageView::Publish, ..op },
                action: CommitActionView::Publish { text: superblock_prefix() + encoded },
            }
        },
        (CommitStageView::Publish, CommitReplyView::Published) => CommitStepView::Finished,
        _ => CommitStepView::Refused { error: CommitError::UnexpectedReply },
    }
}

/// The commit is one of this manifest: its leaves are the manifest's, and its position
/// is one of them.
pub open spec fn commit_ok(manifest: ManifestView, op: CommitOpView) -> bool {
    let leaves = manifest_leaves(manifest, MANIFEST_TREE_LEAF_SPAN as nat);
    &&& if is_tree(manifest) {
        op.leaves == leaves
    } else {
        op.leaves.len() == 0
    }
    &&& match op.stage {
        CommitStageView::EncodeLeaf { at } => 0 <= at < op.leaves.len(),
        CommitStageView::SendLeaf { at } => 0 <= at < op.leaves.len(),
        _ => true,
    }
}

fn clone_leaf(leaf: &ManifestTreeLeaf) -> (copy: ManifestTreeLeaf)
    ensures
        copy@ == leaf@,
{
    let objects = crate::manifest::clone_objects(&leaf.objects, 0, leaf.objects.len());
    assert(objects@ =~= leaf.objects@);
    ManifestTreeLeaf {
        magic: leaf.magic.clone(),
        format_version: leaf.format_version,
        device_uuid: leaf.device_uuid,
        generation: leaf.generation,
        leaf_index: leaf.leaf_index,
        start_object_id: leaf.start_object_id,
        objects,
    }
}

fn clone_leaf_refs(refs: &Vec<ManifestTreeLeafRef>) -> (copy: Vec<ManifestTreeLeafRef>)
    ensures
        leaf_ref_views(copy@) == leaf_ref_views(refs@),
{
    let mut copy: Vec<ManifestTreeLeafRef> = Vec::new();
    let mut i: usize = 0;
    while i < refs.len()
        invariant
            i <= refs@.len(),
            copy@.len() == i,
            forall|k: int| 0 <= k < i ==> (#[trigger] copy@[k])@ == refs@[k]@,
        decreases refs@.len() - i,
    {
        copy.push(
            ManifestTreeLeafRef {
                leaf_index: refs[i].leaf_index,
                start_object_id: refs[i].start_object_id,
                object_count: refs[i].object_count,
                remote: refs[i].remote.clone(),
            },
        );
        i += 1;
    }
    assert(leaf_ref_views(copy@) =~= leaf_ref_views(refs@));
    copy
}

/// Leaves are far fewer than object numbers.
proof fn lemma_leaf_indices(manifest: ManifestView, at: int)
    requires
        manifest.objects.len() <= usize::MAX,
        0 <= at < manifest_leaves(manifest, MANIFEST_TREE_LEAF_SPAN as nat).len(),
    ensures
        manifest_leaves(manifest, MANIFEST_TREE_LEAF_SPAN as nat)[at].leaf_index == at,
        at <= MANIFEST_TREE_LEAF_BASE_OBJECT_ID,
{
    let n = run_count(manifest.objects.len(), MANIFEST_TREE_LEAF_SPAN as nat);
    assert(n == (manifest.objects.len() + 4095) / 4096);
}

impl Manifest {
    fn continue_commit(
        &self,
        leaves: Vec<ManifestTreeLeaf>,
        refs: Vec<ManifestTreeLeafRef>,
        at: usize,
    ) -> (step: CommitStep)
        requires
            is_tree(self@),
            leaf_views(leaves@) == manifest_leaves(self@, MANIFEST_TREE_LEAF_SPAN as nat),
        ensures
            step@ == leaf_on(self@, leaf_views(leaves@), leaf_ref_views(refs@), at as int),
            step matches CommitStep::Wait { op, .. } ==> commit_ok(self@, op@),
    {
        if at < leaves.len() {
            let leaf = clone_leaf(&leaves[at]);
            assert(leaf_views(leaves@)[at as int] == leaves@[at as int]@);
            CommitStep::Wait {
                op: CommitOp { leaves, refs, stage: CommitStage::EncodeLeaf { at } },
                action: CommitAction::EncodeLeaf { leaf },
            }
        } else {
            let root = self.tree_root(clone_leaf_refs(&refs));
            CommitStep::Wait {
                op: CommitOp { leaves, refs, stage: CommitStage::EncodeRoot },
                action: CommitAction::EncodeRoot { root },
            }
        }
    }

    /// Begins to commit the manifest.
    pub fn start_commit(&self) -> (step: CommitStep)
        ensures
            step@ == commit_started(self@),
            step matches CommitStep::Wait { op, .. } ==> commit_ok(self@, op@),
    {
        let refs: Vec<ManifestTreeLeafRef> = Vec::new();
        assert(leaf_ref_views(refs@) =~= Seq::<LeafRefView>::empty());
        if self.objects.len() > MANIFEST_TREE_LEAF_SPAN {
            let leaves = self.tree_leaves(MANIFEST_TREE_LEAF_SPAN);
            self.continue_commit(leaves, refs, 0)
        } else {
            let leaves: Vec<ManifestTreeLeaf> = Vec::new();
            assert(leaf_views(leaves@) =~= Seq::<TreeLeafView>::empty());
            CommitStep::Wait {
                op: CommitOp { leaves, refs, stage: CommitStage::EncodeFlat },
                action: CommitAction::EncodeManifest,
            }
        }
    }

    fn send_part(&self, map: &BlockMap, object_id: u64, payload: Vec<u8>) -> (action: CommitAction)
        ensures
            action@ == sending(self@, *map, object_id, payload@),
    {
        let envelope = ObjectEnvelope {
            object_id,
            generation: self.generation,
            object_size: map.object_size,
            flags: 0,
            payload,
        };
        let encoded = envelope.encode();
        let sha256 = sha256_hex(encoded.as_slice());
        CommitAction::Send { object_id, generation: self.generation, payload: encoded, sha256 }
    }

    fn superblock_for(
        &self,
        map: &BlockMap,
        reference: &RemoteObjectRef,
        previous: Option<&Superblock>,
        now: Timestamp,
    ) -> (superblock: Superblock)
        ensures
            superblock@ == new_superblock(
                self@,
                *map,
                reference@,
                crate::superblock::opt_superblock_view(previous),
                now,
            ),
    {
        if self.objects.len() > MANIFEST_TREE_LEAF_SPAN {
            Superblock::for_tree_manifest_at(
                self.device_uuid,
                map.device_size,
                map.logical_sector_size,
                map.object_size,
                reference,
                previous,
                now,
            )
        } else {
            Superblock::for_manifest_at(
                self.device_uuid,
                map.device_size,
                map.logical_sector_size,
                map.object_size,
                reference,
                previous,
                now,
            )
        }
    }

    /// Goes on with a commit of this manifest, after a reply; `now` is the time to
    /// record.
    pub fn resume_commit_at(
        &self,
        map: &BlockMap,
        op: CommitOp,
        reply: CommitReply,
        now: Timestamp,
    ) -> (step: CommitStep)
        requires
            commit_ok(self@, op@),
        ensures
            step@ == commit_resumed(self@, *map, op@, reply@, now),
            step matches CommitStep::Wait { op, .. } ==> commit_ok(self@, op@),
    {
        let CommitOp { leaves, refs, stage } = op;
        match (stage, reply) {
            (_, CommitReply::Failed) => CommitStep::Refused { error: CommitError::Outside },
            (CommitStage::EncodeFlat, CommitReply::Encoded { bytes }) => CommitStep::Wait {
                op: CommitOp { leaves, refs, stage: CommitStage::SendRoot },
                action: self.send_part(map, MANIFEST_OBJECT_ID, bytes),
            },
            (CommitStage::EncodeRoot, CommitReply::Encoded { bytes }) => CommitStep::Wait {
                op: CommitOp { leaves, refs, stage: CommitStage::SendRoot },
                action: self.send_part(map, MANIFEST_OBJECT_ID, bytes),
            },
            (CommitStage::EncodeLeaf { at }, CommitReply::Encoded { bytes }) => {
                proof {
                    assert(self.objects.len() <= usize::MAX);
                    lemma_leaf_indices(self@, at as int);
                    assert(leaf_views(leaves@)[at as int] == leaves@[at as int]@);
                }
                let object_id = ManifestTreeLeaf::object_id_for_index(leaves[at].leaf_index);
                CommitStep::Wait {
                    op: CommitOp { leaves, refs, stage: CommitStage::SendLeaf { at } },
                    action: self.send_part(map, object_id, bytes),
                }
            },
            (CommitStage::SendLeaf { at }, CommitReply::Sent { reference }) => {
                assert(leaf_views(leaves@)[at as int] == leaves@[at as int]@);
                assert(at < leaves.len());
                let leaf = &leaves[at];
                let entry = ManifestTreeLeafRef {
                    leaf_index: leaf.leaf_index,
                    start_object_id: leaf.start_object_id,
                    object_count: leaf.objects.len() as u64,
                    remote: reference,
                };
                let ghost sofar = leaf_ref_views(refs@);
                let ghost added = entry@;
                let mut refs = refs;
                refs.push(entry);
                assert(leaf_ref_views(refs@) =~= sofar.push(added));
                self.continue_commit(leaves, refs, at + 1)
            },
            (CommitStage::SendRoot, CommitReply::Sent { reference }) => {
                let stage = CommitStage::CheckRoot { reference: reference.clone() };
                CommitStep::Wait {
                    op: CommitOp { leaves, refs, stage },
                    action: CommitAction::Fetch { reference },
                }
            },
            (CommitStage::CheckRoot { reference }, CommitReply::Fetched { payload }) => {
                match check_fetched(&reference, payload) {
                    Err(problem) => CommitStep::Refused { error: CommitError::ReadBack(problem) },
                    Ok(_) => CommitStep::Wait {
                        op: CommitOp { leaves, refs, stage: CommitStage::ReadPinned { reference } },
                        action: CommitAction::ReadPinned,
                    },
                }
            },
            (CommitStage::ReadPinned { reference }, CommitReply::Pinned { superblock }) => {
                let superblock = match &superblock {
                    Some(previous) => self.superblock_for(map, &reference, Some(previous), now),
                    None => self.superblock_for(map, &reference, None, now),
                };
                CommitStep::Wait {
                    op: CommitOp { leaves, refs, stage: CommitStage::EncodeSuperblock },
                    action: CommitAction::EncodeSuperblock { superblock },
                }
            },
            (CommitStage::EncodeSuperblock, CommitReply::Text { encoded }) => {
                let text = Superblock::encode_text(encoded.as_str());
                CommitStep::Wait {
                    op: CommitOp { leaves, refs, stage: CommitStage::Publish },
                    action: CommitAction::Publish { text },
                }
            },
            (CommitStage::Publish, CommitReply::Published) => CommitStep::Finished,
            _ => CommitStep::Refused { error: CommitError::UnexpectedReply },
        }
    }

    /// Goes on with a commit of this manifest, after a reply.
    pub fn resume_commit(&self, map: &BlockMap, op: CommitOp, reply: CommitReply) -> (step:
        CommitStep)
        requires
            commit_ok(self@, op@),
        ensures
            exists|now: Timestamp|
                now.offset_seconds == 0 && writable_time(now.unix_nanos as int) && step@
                    == #[trigger] commit_resumed(self@, *map, op@, reply@, now),
            step matches CommitStep::Wait { op, .. } ==> commit_ok(self@, op@),
    {
        let now = now_utc();
        self.resume_commit_at(map, op, reply, now)
    }
}

} // verus!
