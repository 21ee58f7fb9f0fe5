//! What was committed to the channel can be recovered from it.
use vstd::prelude::*;

use crate::backend::RemoteObjectRefView;
use crate::block::BlockMap;
use crate::clock::Timestamp;
use crate::commit::{
    commit_ok, commit_resumed, commit_started, framed, is_tree, leaf_object_id, leaf_ref,
    new_superblock, CommitActionView, CommitOpView, CommitReplyView, CommitStageView,
    CommitStepView,
};
use crate::config::ConfigView;
use crate::digest::sha256_text;
use crate::envelope::{law_envelope_round_trip, open_envelope, EnvelopeView};
use crate::manifest::{
    manifest_leaves, tree_root_of, LeafRefView, ManifestView, TreeLeafView, TreeRootView,
    MANIFEST_OBJECT_ID, MANIFEST_TREE_LEAF_SPAN,
};
use crate::manifest_laws::{law_tree_round_trip, well_formed_manifest};
use crate::recovery::{
    fetch_resumed, fetch_started, leaf_ids, leaves_on, recovery_resumed, recovery_started,
    rolled_back, FetchActionView, FetchOpView, FetchReplyView, FetchStepView, RecoverError,
    RecoverStepView,
};
use crate::superblock::{manifest_ref_of, stepped_back, SuperblockView};
use crate::telegram::fetch_problem;

verus! {

/// How manifests, leaves and roots are encoded and decoded.
pub struct Codec {
    pub write_manifest: spec_fn(ManifestView) -> Seq<u8>,
    pub write_leaf: spec_fn(TreeLeafView) -> Seq<u8>,
    pub write_root: spec_fn(TreeRootView) -> Seq<u8>,
    pub read_manifest: spec_fn(Seq<u8>) -> ManifestView,
    pub read_leaf: spec_fn(Seq<u8>) -> TreeLeafView,
    pub read_root: spec_fn(Seq<u8>) -> TreeRootView,
}

/// What is written of the manifest is read back: the manifest where it is stored as a whole,
/// else its leaves, and its root wherever the leaves go.
pub open spec fn gives_back(codec: Codec, manifest: ManifestView) -> bool {
    let leaves = manifest_leaves(manifest, MANIFEST_TREE_LEAF_SPAN as nat);
    if is_tree(manifest) {
        &&& forall|i: int|
            0 <= i < leaves.len() ==> (codec.read_leaf)(
                (codec.write_leaf)(#[trigger] leaves[i]),
            ) == leaves[i]
        &&& forall|refs: Seq<LeafRefView>|
            (codec.read_root)((codec.write_root)(#[trigger] tree_root_of(manifest, refs)))
                == tree_root_of(manifest, refs)
    } else {
        (codec.read_manifest)((codec.write_manifest)(manifest)) == manifest
    }
}

/// The messages of the channel, by their number.
pub type Channel = Map<i32, Seq<u8>>;

/// The message with the given number, if there is one.
pub open spec fn sent_at(channel: Channel, id: i32) -> Option<Seq<u8>> {
    if channel.dom().contains(id) {
        Some(channel[id])
    } else {
        None
    }
}

/// The messages of `after` include those of `before`.
pub open spec fn includes(after: Channel, before: Channel) -> bool {
    forall|id: i32| #[trigger]
        before.dom().contains(id) ==> after.dom().contains(id) && after[id] == before[id]
}

/// The reply is what the channel and the codec give to what a commit asks for, and the
/// channel becomes `after`.
pub open spec fn commit_answered(
    codec: Codec,
    manifest: ManifestView,
    channel: Channel,
    action: CommitActionView,
    reply: CommitReplyView,
    after: Channel,
) -> bool {
    match (action, reply) {
        (_, CommitReplyView::Failed) => includes(after, channel),
        (CommitActionView::EncodeManifest, CommitReplyView::Encoded { bytes }) => {
            after == channel && bytes == (codec.write_manifest)(manifest) && bytes.len() <= u64::MAX
        },
        (CommitActionView::EncodeLeaf { leaf }, CommitReplyView::Encoded { bytes }) => {
            after == channel && bytes == (codec.write_leaf)(leaf) && bytes.len() <= u64::MAX
        },
        (CommitActionView::EncodeRoot { root }, CommitReplyView::Encoded { bytes }) => {
            after == channel && bytes == (codec.write_root)(root) && bytes.len() <= u64::MAX
        },
        (
            CommitActionView::Send { object_id, generation, payload, sha256 },
            CommitReplyView::Sent { reference },
        ) => {
            &&& !channel.dom().contains(reference.message_id)
            &&& after == channel.insert(reference.message_id, payload)
            &&& reference.object_id == object_id
            &&& reference.generation == generation
            &&& reference.sha256 == sha256
        },
        (CommitActionView::Fetch { reference }, CommitReplyView::Fetched { payload }) => {
            after == channel && payload == sent_at(channel, reference.message_id)
        },
        (CommitActionView::ReadPinned, CommitReplyView::Pinned { .. }) => after == channel,
        (CommitActionView::EncodeSuperblock { .. }, CommitReplyView::Text { .. }) => after
            == channel,
        (CommitActionView::Publish { .. }, CommitReplyView::Published) => includes(after, channel),
        _ => false,
    }
}

/// A reply to a commit, the time at which it came, and the channel that it left.
pub struct CommitEvent {
    pub reply: CommitReplyView,
    pub now: Timestamp,
    pub channel: Channel,
}

/// The replies lead a commit from one step to another, and the channel from `channel`
/// to `after`.
pub open spec fn commit_leads_to(
    codec: Codec,
    manifest: ManifestView,
    map: BlockMap,
    step: CommitStepView,
    channel: Channel,
    events: Seq<CommitEvent>,
    last: CommitStepView,
    after: Channel,
) -> bool
    decreases events.len(),
{
    if events.len() == 0 {
        last == step && after == channel
    } else {
        match step {
            CommitStepView::Wait { op, action } => {
                let event = events[0];
                &&& commit_answered(codec, manifest, channel, action, event.reply, event.channel)
                &&& commit_leads_to(
                    codec,
                    manifest,
                    map,
                    commit_resumed(manifest, map, op, event.reply, event.now),
                    event.channel,
                    events.skip(1),
                    last,
                    after,
                )
            },
            _ => false,
        }
    }
}

/// The reply is what the channel and the codec give to what following a superblock asks
/// for.
pub open spec fn fetch_answered(
    codec: Codec,
    channel: Channel,
    action: FetchActionView,
    reply: FetchReplyView,
) -> bool {
    match (action, reply) {
        (FetchActionView::Fetch { reference }, FetchReplyView::Fetched { payload }) => payload
            == sent_at(channel, reference.message_id),
        (FetchActionView::FetchMany { ids }, FetchReplyView::Messages { payloads }) => payloads
            == Seq::new(ids.len(), |i: int| sent_at(channel, ids[i])),
        (FetchActionView::DecodeManifest { payload }, FetchReplyView::Manifest { manifest }) => {
            manifest == (codec.read_manifest)(payload)
        },
        (FetchActionView::DecodeRoot { payload }, FetchReplyView::Root { root }) => root == (
        codec.read_root)(payload),
        (FetchActionView::DecodeLeaf { payload }, FetchReplyView::Leaf { leaf }) => leaf == (
        codec.read_leaf)(payload),
        _ => false,
    }
}

/// The replies lead from one step on the way to a manifest to another, in a channel
/// that stays as it is.
pub open spec fn fetch_leads_to(
    codec: Codec,
    channel: Channel,
    step: FetchStepView,
    replies: Seq<FetchReplyView>,
    last: FetchStepView,
) -> bool
    decreases replies.len(),
{
    if replies.len() == 0 {
        last == step
    } else {
        match step {
            FetchStepView::Wait { op, action } => {
                &&& fetch_answered(codec, channel, action, replies[0])
                &&& fetch_leads_to(
                    codec,
                    channel,
                    fetch_resumed(op, replies[0]),
                    replies.skip(1),
                    last,
                )
            },
            _ => false,
        }
    }
}

/// The message that the reference names is the stored form of the payload.
pub open spec fn holds(
    channel: Channel,
    reference: RemoteObjectRefView,
    object_id: u64,
    generation: u64,
    object_size: u32,
    payload: Seq<u8>,
) -> bool {
    let encoded = framed(object_id, generation, object_size, payload);
    &&& payload.len() <= u64::MAX
    &&& reference.object_id == object_id
    &&& reference.generation == generation
    &&& reference.sha256 == sha256_text(encoded)
    &&& sent_at(channel, reference.message_id) == Some(encoded)
}

/// The first `count` leaves are in the channel, where `refs` say.
pub open spec fn leaves_held(
    codec: Codec,
    manifest: ManifestView,
    map: BlockMap,
    channel: Channel,
    refs: Seq<LeafRefView>,
    count: int,
) -> bool {
    let leaves = manifest_leaves(manifest, MANIFEST_TREE_LEAF_SPAN as nat);
    &&& refs.len() == count
    &&& count <= leaves.len()
    &&& forall|k: int|
        0 <= k < count ==> holds(
            channel,
            (#[trigger] refs[k]).remote,
            leaf_object_id(leaves[k].leaf_index),
            manifest.generation,
            map.object_size,
            (codec.write_leaf)(leaves[k]),
        )
}

/// The manifest is in the channel, as a whole or as a tree, where the reference says;
/// of a tree, the leaves are where `refs` say.
pub open spec fn manifest_held(
    codec: Codec,
    manifest: ManifestView,
    map: BlockMap,
    channel: Channel,
    reference: RemoteObjectRefView,
    refs: Seq<LeafRefView>,
) -> bool {
    if is_tree(manifest) {
        &&& leaves_held(
            codec,
            manifest,
            map,
            channel,
            refs,
            manifest_leaves(manifest, MANIFEST_TREE_LEAF_SPAN as nat).len() as int,
        )
        &&& holds(
            channel,
            reference,
            MANIFEST_OBJECT_ID,
            manifest.generation,
            map.object_size,
            (codec.write_root)(tree_root_of(manifest, refs)),
        )
    } else {
        holds(
            channel,
            reference,
            MANIFEST_OBJECT_ID,
            manifest.generation,
            map.object_size,
            (codec.write_manifest)(manifest),
        )
    }
}

pub proof fn lemma_holds_opens(
    channel: Channel,
    reference: RemoteObjectRefView,
    object_id: u64,
    generation: u64,
    object_size: u32,
    payload: Seq<u8>,
)
    requires
        holds(channel, reference, object_id, generation, object_size, payload),
    ensures
        fetch_problem(reference, sent_at(channel, reference.message_id)) is None,
        open_envelope(
            framed(object_id, generation, object_size, payload),
            object_id,
            generation,
        ) is Ok,
        open_envelope(
            framed(object_id, generation, object_size, payload),
            object_id,
            generation,
        )->Ok_0.payload == payload,
{
    law_envelope_round_trip(
        EnvelopeView { object_id, generation, object_size, flags: 0, payload },
    );
}

proof fn lemma_leaves_held_later(
    codec: Codec,
    manifest: ManifestView,
    map: BlockMap,
    channel: Channel,
    after: Channel,
    refs: Seq<LeafRefView>,
    count: int,
)
    requires
        leaves_held(codec, manifest, map, channel, refs, count),
        includes(after, channel),
    ensures
        leaves_held(codec, manifest, map, after, refs, count),
{
    let leaves = manifest_leaves(manifest, MANIFEST_TREE_LEAF_SPAN as nat);
    assert forall|k: int| 0 <= k < count implies holds(
        after,
        (#[trigger] refs[k]).remote,
        leaf_object_id(leaves[k].leaf_index),
        manifest.generation,
        map.object_size,
        (codec.write_leaf)(leaves[k]),
    ) by {
        assert(channel.dom().contains(refs[k].remote.message_id));
    }
}

pub proof fn lemma_manifest_held_later(
    codec: Codec,
    manifest: ManifestView,
    map: BlockMap,
    channel: Channel,
    after: Channel,
    reference: RemoteObjectRefView,
    refs: Seq<LeafRefView>,
)
    requires
        manifest_held(codec, manifest, map, channel, reference, refs),
        includes(after, channel),
    ensures
        manifest_held(codec, manifest, map, after, reference, refs),
{
    assert(channel.dom().contains(reference.message_id));
    if is_tree(manifest) {
        lemma_leaves_held_later(
            codec,
            manifest,
            map,
            channel,
            after,
            refs,
            manifest_leaves(manifest, MANIFEST_TREE_LEAF_SPAN as nat).len() as int,
        );
    }
}

/// What holds of a commit of `manifest` when it has come to `step`.
pub open spec fn commit_state(
    codec: Codec,
    manifest: ManifestView,
    map: BlockMap,
    step: CommitStepView,
    channel: Channel,
) -> bool {
    let leaves = manifest_leaves(manifest, MANIFEST_TREE_LEAF_SPAN as nat);
    match step {
        CommitStepView::Wait { op, action } => {
            &&& commit_ok(manifest, op)
            &&& match op.stage {
                CommitStageView::EncodeFlat => {
                    &&& !is_tree(manifest)
                    &&& action == CommitActionView::EncodeManifest
                },
                CommitStageView::EncodeLeaf { at } => {
                    &&& is_tree(manifest)
                    &&& leaves_held(codec, manifest, map, channel, op.refs, at)
                    &&& action == (CommitActionView::EncodeLeaf { leaf: leaves[at] })
                },
                CommitStageView::SendLeaf { at } => {
                    &&& is_tree(manifest)
                    &&& leaves_held(codec, manifest, map, channel, op.refs, at)
                    &&& (codec.write_leaf)(leaves[at]).len() <= u64::MAX
                    &&& action == crate::commit::sending(
                        manifest,
                        map,
                        leaf_object_id(leaves[at].leaf_index),
                        (codec.write_leaf)(leaves[at]),
                    )
                },
                CommitStageView::EncodeRoot => {
                    &&& is_tree(manifest)
                    &&& leaves_held(
                        codec,
                        manifest,
                        map,
                        channel,
                        op.refs,
                        leaves.len() as int,
                    )
                    &&& action == (CommitActionView::EncodeRoot {
                        root: tree_root_of(manifest, op.refs),
                    })
                },
                CommitStageView::SendRoot => {
                    let payload = if is_tree(manifest) {
                        (codec.write_root)(tree_root_of(manifest, op.refs))
                    } else {
                        (codec.write_manifest)(manifest)
                    };
                    &&& is_tree(manifest) ==> leaves_held(
                        codec,
                        manifest,
                        map,
                        channel,
                        op.refs,
                        leaves.len() as int,
                    )
                    &&& payload.len() <= u64::MAX
                    &&& action == crate::commit::sending(
                        manifest,
                        map,
                        MANIFEST_OBJECT_ID,
                        payload,
                    )
                },
                CommitStageView::CheckRoot { reference } => {
                    &&& manifest_held(codec, manifest, map, channel, reference, op.refs)
                    &&& action == (CommitActionView::Fetch { reference })
                },
                CommitStageView::ReadPinned { reference } => {
                    &&& manifest_held(codec, manifest, map, channel, reference, op.refs)
                    &&& action == CommitActionView::ReadPinned
                },
                CommitStageView::EncodeSuperblock => action
                    matches CommitActionView::EncodeSuperblock { superblock }
                    && names_manifest(codec, manifest, map, channel, superblock),
                CommitStageView::Publish => action is Publish,
            }
        },
        _ => true,
    }
}

/// The superblock leads to the manifest, which is in the channel.
pub open spec fn names_manifest(
    codec: Codec,
    manifest: ManifestView,
    map: BlockMap,
    channel: Channel,
    superblock: SuperblockView,
) -> bool {
    exists|reference: RemoteObjectRefView, refs: Seq<LeafRefView>, previous, now: Timestamp|
        #![trigger
            manifest_held(codec, manifest, map, channel, reference, refs),
            new_superblock(manifest, map, reference, previous, now)]
        manifest_held(codec, manifest, map, channel, reference, refs) && superblock
            == new_superblock(manifest, map, reference, previous, now)
}

pub proof fn lemma_commit_resumed(
    codec: Codec,
    manifest: ManifestView,
    map: BlockMap,
    op: CommitOpView,
    action: CommitActionView,
    channel: Channel,
    reply: CommitReplyView,
    now: Timestamp,
    after: Channel,
)
    requires
        commit_state(codec, manifest, map, CommitStepView::Wait { op, action }, channel),
        commit_answered(codec, manifest, channel, action, reply, after),
    ensures
        commit_state(codec, manifest, map, commit_resumed(manifest, map, op, reply, now), after),
{
    let leaves = manifest_leaves(manifest, MANIFEST_TREE_LEAF_SPAN as nat);
    match (op.stage, reply) {
        (CommitStageView::SendLeaf { at }, CommitReplyView::Sent { reference }) => {
            assert(includes(after, channel));
            lemma_leaves_held_later(codec, manifest, map, channel, after, op.refs, at);
            let refs = op.refs.push(leaf_ref(leaves[at], reference));
            assert forall|k: int| 0 <= k < at + 1 implies holds(
                after,
                (#[trigger] refs[k]).remote,
                leaf_object_id(leaves[k].leaf_index),
                manifest.generation,
                map.object_size,
                (codec.write_leaf)(leaves[k]),
            ) by {
                if k < at {
                    assert(refs[k] == op.refs[k]);
                }
            }
            assert(leaves_held(codec, manifest, map, after, refs, at + 1));
        },
        (CommitStageView::SendRoot, CommitReplyView::Sent { reference }) => {
            assert(includes(after, channel));
            if is_tree(manifest) {
                lemma_leaves_held_later(
                    codec,
                    manifest,
                    map,
                    channel,
                    after,
                    op.refs,
                    leaves.len() as int,
                );
            }
            assert(manifest_held(codec, manifest, map, after, reference, op.refs));
        },
        (CommitStageView::ReadPinned { reference }, CommitReplyView::Pinned { superblock }) => {
            let new = new_superblock(manifest, map, reference, superblock, now);
            assert(manifest_held(codec, manifest, map, after, reference, op.refs));
            assert(names_manifest(codec, manifest, map, after, new));
        },
        _ => {},
    }
}

pub proof fn lemma_commit_leads(
    codec: Codec,
    manifest: ManifestView,
    map: BlockMap,
    step: CommitStepView,
    channel: Channel,
    events: Seq<CommitEvent>,
    last: CommitStepView,
    after: Channel,
)
    requires
        commit_state(codec, manifest, map, step, channel),
        commit_leads_to(codec, manifest, map, step, channel, events, last, after),
    ensures
        commit_state(codec, manifest, map, last, after),
    decreases events.len(),
{
    if events.len() > 0 {
        match step {
            CommitStepView::Wait { op, action } => {
                let event = events[0];
                lemma_commit_resumed(
                    codec,
                    manifest,
                    map,
                    op,
                    action,
                    channel,
                    event.reply,
                    event.now,
                    event.channel,
                );
                lemma_commit_leads(
                    codec,
                    manifest,
                    map,
                    commit_resumed(manifest, map, op, event.reply, event.now),
                    event.channel,
                    events.skip(1),
                    last,
                    after,
                );
            },
            _ => {},
        }
    }
}

pub proof fn lemma_commit_started(
    codec: Codec,
    manifest: ManifestView,
    map: BlockMap,
    channel: Channel,
)
    ensures
        commit_state(codec, manifest, map, commit_started(manifest), channel),
{
    if is_tree(manifest) {
        let leaves = manifest_leaves(manifest, MANIFEST_TREE_LEAF_SPAN as nat);
        assert(leaves.len() == (manifest.objects.len() + 4095) / 4096);
        assert(leaves_held(codec, manifest, map, channel, Seq::empty(), 0));
    }
}

/// A superblock is only published when the whole manifest that it leads to is in the
/// channel, under the digests that it and the manifest's root name.
pub proof fn law_superblock_follows_its_manifest(
    codec: Codec,
    manifest: ManifestView,
    map: BlockMap,
    channel: Channel,
    events: Seq<CommitEvent>,
    last: CommitStepView,
    after: Channel,
)
    requires
        commit_leads_to(
            codec,
            manifest,
            map,
            commit_started(manifest),
            channel,
            events,
            last,
            after,
        ),
    ensures
        last matches CommitStepView::Wait {
            action: CommitActionView::EncodeSuperblock { superblock },
            ..
        } ==> names_manifest(codec, manifest, map, after, superblock),
{
    let first = commit_started(manifest);
    lemma_commit_started(codec, manifest, map, channel);
    lemma_commit_leads(codec, manifest, map, first, channel, events, last, after);
}

/// What holds on the way from a superblock to the manifest that it leads to.
pub open spec fn fetch_state(
    codec: Codec,
    manifest: ManifestView,
    map: BlockMap,
    channel: Channel,
    refs: Seq<LeafRefView>,
    step: FetchStepView,
) -> bool {
    let leaves = manifest_leaves(manifest, MANIFEST_TREE_LEAF_SPAN as nat);
    let root = tree_root_of(manifest, refs);
    match step {
        FetchStepView::Refused { .. } => false,
        FetchStepView::Found { manifest: found } => found == manifest,
        FetchStepView::Wait { op, action } => match op {
            FetchOpView::Named { reference, encoding } => {
                &&& manifest_held(codec, manifest, map, channel, reference, refs)
                &&& encoding is Tree == is_tree(manifest)
                &&& action == (FetchActionView::Fetch { reference })
            },
            FetchOpView::Flat => {
                &&& !is_tree(manifest)
                &&& action == (FetchActionView::DecodeManifest {
                    payload: (codec.write_manifest)(manifest),
                })
            },
            FetchOpView::Root => {
                &&& is_tree(manifest)
                &&& leaves_held(codec, manifest, map, channel, refs, leaves.len() as int)
                &&& action == (FetchActionView::DecodeRoot { payload: (codec.write_root)(root) })
            },
            FetchOpView::Leaves { root: named } => {
                &&& is_tree(manifest)
                &&& named == root
                &&& leaves_held(codec, manifest, map, channel, refs, leaves.len() as int)
                &&& action == (FetchActionView::FetchMany { ids: leaf_ids(root) })
            },
            FetchOpView::Leaf { root: named, payloads, leaves: read, at } => {
                &&& is_tree(manifest)
                &&& named == root
                &&& leaves_held(codec, manifest, map, channel, refs, leaves.len() as int)
                &&& payloads == Seq::new(
                    leaf_ids(root).len(),
                    |i: int| sent_at(channel, leaf_ids(root)[i]),
                )
                &&& 0 <= at < leaves.len()
                &&& read == leaves.take(at)
                &&& action == (FetchActionView::DecodeLeaf {
                    payload: (codec.write_leaf)(leaves[at]),
                })
            },
        },
    }
}

/// The number of replies that it takes from a superblock to its manifest.
pub open spec fn fetch_rounds(manifest: ManifestView) -> nat {
    if is_tree(manifest) {
        3 + manifest_leaves(manifest, MANIFEST_TREE_LEAF_SPAN as nat).len()
    } else {
        2
    }
}

/// The number of replies that are still to come on the way to a manifest.
pub open spec fn rounds_left(manifest: ManifestView, step: FetchStepView) -> int {
    let count = manifest_leaves(manifest, MANIFEST_TREE_LEAF_SPAN as nat).len() as int;
    match step {
        FetchStepView::Wait { op, .. } => match op {
            FetchOpView::Named { .. } => fetch_rounds(manifest) as int,
            FetchOpView::Flat => 1,
            FetchOpView::Root => 2 + count,
            FetchOpView::Leaves { .. } => 1 + count,
            FetchOpView::Leaf { at, .. } => count - at,
        },
        _ => 0,
    }
}

proof fn lemma_leaves_on(
    codec: Codec,
    manifest: ManifestView,
    map: BlockMap,
    channel: Channel,
    refs: Seq<LeafRefView>,
    at: int,
)
    requires
        is_tree(manifest),
        well_formed_manifest(manifest),
        leaves_held(
            codec,
            manifest,
            map,
            channel,
            refs,
            manifest_leaves(manifest, MANIFEST_TREE_LEAF_SPAN as nat).len() as int,
        ),
        0 <= at <= manifest_leaves(manifest, MANIFEST_TREE_LEAF_SPAN as nat).len(),
    ensures
        ({
            let leaves = manifest_leaves(manifest, MANIFEST_TREE_LEAF_SPAN as nat);
            let root = tree_root_of(manifest, refs);
            let payloads = Seq::new(
                leaf_ids(root).len(),
                |i: int| sent_at(channel, leaf_ids(root)[i]),
            );
            fetch_state(
                codec,
                manifest,
                map,
                channel,
                refs,
                leaves_on(root, payloads, leaves.take(at), at),
            ) && rounds_left(manifest, leaves_on(root, payloads, leaves.take(at), at))
                == leaves.len() - at
        }),
{
    let leaves = manifest_leaves(manifest, MANIFEST_TREE_LEAF_SPAN as nat);
    let root = tree_root_of(manifest, refs);
    if at < leaves.len() {
        let reference = refs[at].remote;
        assert(holds(
            channel,
            reference,
            leaf_object_id(leaves[at].leaf_index),
            manifest.generation,
            map.object_size,
            (codec.write_leaf)(leaves[at]),
        ));
        lemma_holds_opens(
            channel,
            reference,
            leaf_object_id(leaves[at].leaf_index),
            manifest.generation,
            map.object_size,
            (codec.write_leaf)(leaves[at]),
        );
    } else {
        assert(leaves.take(at) =~= leaves);
        law_tree_round_trip(manifest, MANIFEST_TREE_LEAF_SPAN as nat, root, leaves);
    }
}

proof fn lemma_fetch_resumed(
    codec: Codec,
    manifest: ManifestView,
    map: BlockMap,
    channel: Channel,
    refs: Seq<LeafRefView>,
    op: FetchOpView,
    action: FetchActionView,
    reply: FetchReplyView,
)
    requires
        gives_back(codec, manifest),
        well_formed_manifest(manifest),
        fetch_state(
            codec,
            manifest,
            map,
            channel,
            refs,
            FetchStepView::Wait { op, action },
        ),
        fetch_answered(codec, channel, action, reply),
    ensures
        fetch_state(codec, manifest, map, channel, refs, fetch_resumed(op, reply)),
        rounds_left(manifest, fetch_resumed(op, reply)) == rounds_left(
            manifest,
            (FetchStepView::Wait { op, action }),
        ) - 1,
{
    let leaves = manifest_leaves(manifest, MANIFEST_TREE_LEAF_SPAN as nat);
    let root = tree_root_of(manifest, refs);
    match (op, reply) {
        (FetchOpView::Named { reference, .. }, FetchReplyView::Fetched { payload }) => {
            let inner = if is_tree(manifest) {
                (codec.write_root)(root)
            } else {
                (codec.write_manifest)(manifest)
            };
            lemma_holds_opens(
                channel,
                reference,
                MANIFEST_OBJECT_ID,
                manifest.generation,
                map.object_size,
                inner,
            );
        },
        (FetchOpView::Leaves { .. }, FetchReplyView::Messages { payloads }) => {
            assert(leaves.take(0) =~= Seq::<TreeLeafView>::empty());
            lemma_leaves_on(codec, manifest, map, channel, refs, 0);
        },
        (FetchOpView::Leaf { leaves: read, at, .. }, FetchReplyView::Leaf { leaf }) => {
            assert(leaves.take(at).push(leaf) =~= leaves.take(at + 1));
            lemma_leaves_on(codec, manifest, map, channel, refs, at + 1);
        },
        _ => {},
    }
}

pub proof fn lemma_fetch_leads(
    codec: Codec,
    manifest: ManifestView,
    map: BlockMap,
    channel: Channel,
    refs: Seq<LeafRefView>,
    step: FetchStepView,
    replies: Seq<FetchReplyView>,
    last: FetchStepView,
)
    requires
        gives_back(codec, manifest),
        well_formed_manifest(manifest),
        fetch_state(codec, manifest, map, channel, refs, step),
        fetch_leads_to(codec, channel, step, replies, last),
    ensures
        fetch_state(codec, manifest, map, channel, refs, last),
        rounds_left(manifest, last) == rounds_left(manifest, step) - replies.len(),
    decreases replies.len(),
{
    if replies.len() > 0 {
        match step {
            FetchStepView::Wait { op, action } => {
                lemma_fetch_resumed(
                    codec,
                    manifest,
                    map,
                    channel,
                    refs,
                    op,
                    action,
                    replies[0],
                );
                lemma_fetch_leads(
                    codec,
                    manifest,
                    map,
                    channel,
                    refs,
                    fetch_resumed(op, replies[0]),
                    replies.skip(1),
                    last,
                );
            },
            _ => {},
        }
    }
}

/// What was committed is recovered: a superblock that leads to a manifest in the channel
/// gives that manifest back, from any later state of the channel, and is never refused
/// as long as the channel answers. A manifest stored as a whole is there after two replies,
/// one stored as a tree after three and one for each leaf.
pub proof fn law_committed_manifest_is_recovered(
    codec: Codec,
    manifest: ManifestView,
    map: BlockMap,
    channel: Channel,
    superblock: SuperblockView,
    later: Channel,
    chat_id: i64,
    replies: Seq<FetchReplyView>,
    last: FetchStepView,
)
    requires
        gives_back(codec, manifest),
        well_formed_manifest(manifest),
        names_manifest(codec, manifest, map, channel, superblock),
        includes(later, channel),
        fetch_leads_to(codec, later, fetch_started(superblock, chat_id), replies, last),
    ensures
        !(last is Refused),
        last matches FetchStepView::Found { manifest: found } ==> found == manifest,
        last is Found <==> replies.len() == fetch_rounds(manifest),
        replies.len() <= fetch_rounds(manifest),
{
    let (reference, refs, previous, now) = choose|
        reference: RemoteObjectRefView,
        refs: Seq<LeafRefView>,
        previous: Option<SuperblockView>,
        now: Timestamp,
    |
        #![trigger
            manifest_held(codec, manifest, map, channel, reference, refs),
            new_superblock(manifest, map, reference, previous, now)]
        manifest_held(codec, manifest, map, channel, reference, refs) && superblock
            == new_superblock(manifest, map, reference, previous, now);
    lemma_manifest_held_later(codec, manifest, map, channel, later, reference, refs);
    let named = manifest_ref_of(superblock, chat_id);
    assert(manifest_held(codec, manifest, map, later, named, refs));
    let first = fetch_started(superblock, chat_id);
    assert(fetch_state(codec, manifest, map, later, refs, first));
    lemma_fetch_leads(codec, manifest, map, later, refs, first, replies, last);
}

/// A recovered manifest is always that of the device that the superblock names; where
/// the current manifest cannot be fetched, the one before it is tried, and no other.
pub proof fn law_recovery_stays_on_the_device(
    superblock: SuperblockView,
    current: bool,
    fetched: Option<ManifestView>,
)
    ensures
        match recovery_resumed(superblock, current, fetched) {
            RecoverStepView::Recovered { manifest } => Some(manifest) == fetched
                && manifest.device_uuid == superblock.device_uuid,
            RecoverStepView::Fetch { superblock: next, current: again } => {
                &&& fetched is None
                &&& current
                &&& !again
                &&& next.device_uuid == superblock.device_uuid
                &&& Some(next.current_manifest_message_id)
                    == superblock.previous_manifest_message_id
                &&& Some(next.manifest_hash) == superblock.previous_manifest_hash
                &&& Some(next.manifest_generation) == superblock.previous_manifest_generation
            },
            RecoverStepView::Refused { .. } => true,
        },
{
}

/// Recovery begins with the superblock that was found, and goes on to fetch its manifest
/// exactly where the superblock has the device size and the object size that are set; it is
/// refused for the lack of a superblock, for the device size or for the object size exactly
/// where that is what is wrong first.
pub proof fn law_recovery_begins_where_sizes_agree(
    config: ConfigView,
    found: Option<SuperblockView>,
)
    ensures
        ({
            let step = recovery_started(config, found);
            &&& step == (RecoverStepView::Refused { error: RecoverError::NoSuperblock })
                <==> found is None
            &&& step == (RecoverStepView::Refused { error: RecoverError::DeviceSize }) <==> found
                is Some && found->0.device_size != config.device_size
            &&& step == (RecoverStepView::Refused { error: RecoverError::ObjectSize }) <==> found
                is Some && found->0.device_size == config.device_size && found->0.object_size
                != config.object_size
            &&& found is Some && found->0.device_size == config.device_size && found->0.object_size
                == config.object_size <==> found is Some && step == (RecoverStepView::Fetch {
                superblock: found->0,
                current: true,
            })
        }),
{
}

/// A manifest that was fetched is what is recovered, exactly where it has the identity that the
/// superblock names, whatever else is in it; with another identity it is refused as that of
/// another device. Where nothing could be fetched, the previous manifest is tried once, if the
/// superblock names it fully.
pub proof fn law_recovery_takes_what_was_fetched(
    superblock: SuperblockView,
    current: bool,
    fetched: Option<ManifestView>,
)
    ensures
        ({
            let step = recovery_resumed(superblock, current, fetched);
            &&& fetched is Some && fetched->0.device_uuid == superblock.device_uuid ==> step == (
            RecoverStepView::Recovered { manifest: fetched->0 })
            &&& step == (RecoverStepView::Refused { error: RecoverError::DeviceUuid })
                <==> fetched is Some && fetched->0.device_uuid != superblock.device_uuid
            &&& step == (RecoverStepView::Refused { error: RecoverError::Fetch }) <==> fetched
                is None && !current
            &&& step is Fetch <==> fetched is None && current
                && superblock.previous_manifest_message_id is Some
                && superblock.previous_manifest_hash is Some
                && superblock.previous_manifest_generation is Some
        }),
{
}

/// Rolling back leads to the previous manifest and remembers the current one, so that
/// rolling back twice leads to the current one again.
pub proof fn law_roll_back_can_be_undone(
    current: SuperblockView,
    device_uuid: u128,
    chat_id: i64,
    now: Timestamp,
    later: Timestamp,
)
    requires
        stepped_back(current) is Ok,
    ensures
        ({
            let back = rolled_back(current, device_uuid, chat_id, now);
            let again = rolled_back(back->Ok_0, device_uuid, chat_id, later);
            &&& back is Ok
            &&& manifest_ref_of(back->Ok_0, chat_id) == manifest_ref_of(
                stepped_back(current)->Ok_0,
                chat_id,
            )
            &&& again is Ok
            &&& manifest_ref_of(again->Ok_0, chat_id) == manifest_ref_of(current, chat_id)
            &&& again->Ok_0.created_at == current.created_at
        }),
{
}

/// Rolling back publishes a superblock of the same sizes that leads to the previous manifest, as
/// one stored as a whole, remembers the current one, and keeps the time at which the device
/// began; what it lacks is named where it cannot.
pub proof fn law_roll_back_keeps_the_device(
    current: SuperblockView,
    device_uuid: u128,
    chat_id: i64,
    now: Timestamp,
)
    ensures
        ({
            let back = rolled_back(current, device_uuid, chat_id, now);
            &&& back is Ok <==> current.previous_manifest_message_id is Some
                && current.previous_manifest_hash is Some
                && current.previous_manifest_generation is Some
            &&& back is Err ==> stepped_back(current) is Err && back->Err_0 == stepped_back(
                current,
            )->Err_0
            &&& back is Ok ==> {
                let b = back->Ok_0;
                &&& b.device_uuid == device_uuid
                &&& b.device_size == current.device_size
                &&& b.logical_sector_size == current.logical_sector_size
                &&& b.object_size == current.object_size
                &&& Some(b.current_manifest_message_id) == current.previous_manifest_message_id
                &&& Some(b.manifest_hash) == current.previous_manifest_hash
                &&& Some(b.manifest_generation) == current.previous_manifest_generation
                &&& b.previous_manifest_message_id == Some(current.current_manifest_message_id)
                &&& b.previous_manifest_hash == Some(current.manifest_hash)
                &&& b.previous_manifest_generation == Some(current.manifest_generation)
                &&& b.created_at == current.created_at
                &&& b.last_commit_at == now
            }
        }),
{
}

} // verus!
