//! What damaged or unfitting answers from outside come to.
use vstd::prelude::*;

use crate::backend::RemoteObjectRefView;
use crate::block::BlockMap;
use crate::cache::DirtyView;
use crate::clock::Timestamp;
use crate::commit::{
    commit_resumed, CommitActionView, CommitOpView, CommitReplyView, CommitStageView,
    CommitStepView,
};
use crate::device::{
    flush_resumed, object_resumed, write_resumed, DeviceError, DeviceView, FlushStageView,
    ObjectOutcomeView, ObjectStageView, OutcomeView, ReplyView, WriteStageView,
};
use crate::digest::sha256_text;
use crate::envelope::{law_first_wrong_field_decides, right_fields};
use crate::manifest::{
    tree_manifest, ManifestView, TreeLeafView, TreeRootView,
};
use crate::recovery::{
    fetch_resumed, fetch_started, FetchActionView, FetchOpView, FetchReplyView, FetchStepView,
    ManifestFetchError,
};
use crate::superblock::SuperblockView;
use crate::telegram::FetchError;

verus! {

/// What was fetched is there, is the stored form of that generation of that object, and has the
/// digest.
pub open spec fn is_intact(
    payload: Option<Seq<u8>>,
    object_id: u64,
    generation: u64,
    sha256: Seq<char>,
) -> bool {
    payload matches Some(bytes) && right_fields(bytes, object_id, generation) == 7 && sha256_text(
        bytes,
    ) == sha256
}

/// What a superblock leads to is decoded exactly where it is intact, as a whole manifest or as
/// the root of a tree as the superblock says, and without its header; else the fetch is refused
/// and says what is wrong. What the superblock names is what is fetched.
pub proof fn law_only_an_intact_manifest_is_decoded(
    superblock: SuperblockView,
    chat_id: i64,
    payload: Option<Seq<u8>>,
)
    requires
        payload is Some ==> payload->0.len() <= u64::MAX,
    ensures
        ({
            let first = fetch_started(superblock, chat_id);
            let id = 0xffff_ffff_ffff_fffe;
            let (generation, hash) = (superblock.manifest_generation, superblock.manifest_hash);
            let next = fetch_resumed(first->op, FetchReplyView::Fetched { payload });
            &&& first matches FetchStepView::Wait { action: FetchActionView::Fetch { reference }, .. }
                && {
                &&& reference.chat_id == chat_id
                &&& reference.message_id == superblock.current_manifest_message_id
                &&& reference.object_id == id
                &&& reference.generation == generation
                &&& reference.sha256 == hash
            }
            &&& if is_intact(payload, id, generation, hash) {
                next matches FetchStepView::Wait { action, .. } && action
                    == if superblock.manifest_encoding is Tree {
                    FetchActionView::DecodeRoot { payload: payload->0.skip(76) }
                } else {
                    FetchActionView::DecodeManifest { payload: payload->0.skip(76) }
                }
            } else {
                next matches FetchStepView::Refused { error: ManifestFetchError::Named(problem) }
                    && match problem {
                    FetchError::NotFound { message_id } => {
                        &&& payload is None
                        &&& message_id == superblock.current_manifest_message_id
                    },
                    FetchError::Format(_) => {
                        payload is Some && right_fields(payload->0, id, generation) < 7
                    },
                    FetchError::Checksum => {
                        payload is Some && right_fields(payload->0, id, generation) == 7
                    },
                }
            }
        }),
{
    if payload is Some {
        law_first_wrong_field_decides(
            payload->0,
            0xffff_ffff_ffff_fffe,
            superblock.manifest_generation,
        );
    }
}

/// Behind a decoded whole manifest the fetch has found it; behind a root it fetches the leaves
/// that the root names, all at once and in their order.
pub proof fn law_decoded_parts_are_taken(manifest: ManifestView, root: TreeRootView, k: int)
    ensures
        fetch_resumed(FetchOpView::Flat, FetchReplyView::Manifest { manifest }) == (
        FetchStepView::Found { manifest }),
        fetch_resumed(FetchOpView::Root, FetchReplyView::Root { root }) matches FetchStepView::Wait {
            op,
            action: FetchActionView::FetchMany { ids },
        } && {
            &&& op == (FetchOpView::Leaves { root })
            &&& ids.len() == root.leaves.len()
            &&& 0 <= k < ids.len() ==> ids[k] == root.leaves[k].remote.message_id
        },
{
}

/// The step that decodes the leaf at `at`, or refuses it.
pub open spec fn is_leaf_taken(
    root: TreeRootView,
    payloads: Seq<Option<Seq<u8>>>,
    leaves: Seq<TreeLeafView>,
    at: int,
    step: FetchStepView,
) -> bool {
    let reference = root.leaves[at];
    let (id, generation) = (reference.remote.object_id, reference.remote.generation);
    let payload = payloads[at];
    if is_intact(payload, id, generation, reference.remote.sha256) {
        step == (FetchStepView::Wait {
            op: FetchOpView::Leaf { root, payloads, leaves, at },
            action: FetchActionView::DecodeLeaf { payload: payload->0.skip(76) },
        })
    } else {
        step matches FetchStepView::Refused { error } && match error {
            ManifestFetchError::LeafMissing { leaf_index } => {
                payload is None && leaf_index == reference.leaf_index
            },
            ManifestFetchError::LeafFormat(_) => {
                payload is Some && right_fields(payload->0, id, generation) < 7
            },
            ManifestFetchError::LeafChecksum => {
                payload is Some && right_fields(payload->0, id, generation) == 7
            },
            _ => false,
        }
    }
}

/// Each leaf is decoded exactly where it is intact, one behind the other; behind the last one the
/// manifest is what root and leaves make up.
pub proof fn law_only_intact_leaves_are_decoded(
    root: TreeRootView,
    payloads: Seq<Option<Seq<u8>>>,
    leaves: Seq<TreeLeafView>,
    leaf: TreeLeafView,
    at: int,
)
    requires
        payloads.len() == root.leaves.len(),
        0 <= at < payloads.len(),
        forall|k: int|
            0 <= k < payloads.len() && (#[trigger] payloads[k]) is Some ==> payloads[k]->0.len()
                <= u64::MAX,
    ensures
        is_leaf_taken(
            root,
            payloads,
            Seq::empty(),
            0,
            fetch_resumed(FetchOpView::Leaves { root }, FetchReplyView::Messages { payloads }),
        ),
        ({
            let next = fetch_resumed(
                FetchOpView::Leaf { root, payloads, leaves, at },
                FetchReplyView::Leaf { leaf },
            );
            if at + 1 < payloads.len() {
                is_leaf_taken(root, payloads, leaves.push(leaf), at + 1, next)
            } else {
                match tree_manifest(root, leaves.push(leaf)) {
                    Ok(manifest) => next == (FetchStepView::Found { manifest }),
                    Err(error) => next == (FetchStepView::Refused {
                        error: ManifestFetchError::Tree(error),
                    }),
                }
            }
        }),
{
    let first = root.leaves[0].remote;
    if payloads[0] is Some {
        law_first_wrong_field_decides(payloads[0]->0, first.object_id, first.generation);
    }
    if at + 1 < payloads.len() && payloads[at + 1] is Some {
        let next = root.leaves[at + 1].remote;
        law_first_wrong_field_decides(payloads[at + 1]->0, next.object_id, next.generation);
    }
}

/// A commit goes on to the superblock exactly where what it uploaded last is read back intact;
/// else it is refused, and nothing is published.
pub proof fn law_commit_goes_on_with_what_can_be_read_back(
    manifest: ManifestView,
    map: BlockMap,
    op: CommitOpView,
    reference: RemoteObjectRefView,
    payload: Option<Seq<u8>>,
    now: Timestamp,
)
    requires
        op.stage == (CommitStageView::CheckRoot { reference }),
        payload is Some ==> payload->0.len() <= u64::MAX,
    ensures
        ({
            let next = commit_resumed(
                manifest,
                map,
                op,
                CommitReplyView::Fetched { payload },
                now,
            );
            if is_intact(payload, reference.object_id, reference.generation, reference.sha256) {
                next matches CommitStepView::Wait { action, .. } && action
                    == CommitActionView::ReadPinned
            } else {
                next matches CommitStepView::Refused { error } && error is ReadBack
            }
        }),
{
    if payload is Some {
        law_first_wrong_field_decides(payload->0, reference.object_id, reference.generation);
    }
}

/// Work that failed outside refuses every request and changes nothing of the device, whatever it
/// waited for; and so does an answer that does not fit what was asked for.
pub proof fn law_failed_and_unfitting_answers_are_refused(
    device: DeviceView,
    stage: ObjectStageView,
    rows: Seq<DirtyView>,
    at: int,
    flush: FlushStageView,
    cursor: int,
    input: Seq<u8>,
    generation: u64,
    encoded: Seq<u8>,
    reply: ReplyView,
    now: Seq<char>,
)
    ensures
        reply is Failed ==> {
            let read = object_resumed(device, stage, reply, now);
            let flushed = flush_resumed(device, rows, at, flush, reply, now);
            let saved = write_resumed(
                device,
                cursor,
                input,
                at,
                WriteStageView::Saving { generation, encoded },
                reply,
                now,
            );
            &&& read.device == device && read.changes.len() == 0
            &&& read.outcome == (ObjectOutcomeView::Refused { error: DeviceError::Outside })
            &&& flushed.device == device && flushed.changes.len() == 0
            &&& flushed.outcome == (OutcomeView::Refused { error: DeviceError::Outside })
            &&& saved.device == device && saved.changes.len() == 0
            &&& saved.outcome == (OutcomeView::Refused { error: DeviceError::Outside })
        },
        reply is Sent || reply is Messages || reply is Encoded ==> {
            let read = object_resumed(device, stage, reply, now);
            &&& read.device == device && read.changes.len() == 0
            &&& read.outcome == (ObjectOutcomeView::Refused { error: DeviceError::UnexpectedReply })
        },
        reply is Fetched || reply is Messages ==> {
            let flushed = flush_resumed(device, rows, at, flush, reply, now);
            &&& flushed.device == device && flushed.changes.len() == 0
            &&& flushed.outcome == (OutcomeView::Refused { error: DeviceError::UnexpectedReply })
        },
        !(reply is Failed) && !(reply is Done) ==> {
            let saved = write_resumed(
                device,
                cursor,
                input,
                at,
                WriteStageView::Saving { generation, encoded },
                reply,
                now,
            );
            &&& saved.device == device && saved.changes.len() == 0
            &&& saved.outcome == (OutcomeView::Refused { error: DeviceError::UnexpectedReply })
        },
{
}

} // verus!
