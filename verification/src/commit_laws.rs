//! What a commit asks for on its way, and what it publishes.
use vstd::prelude::*;

use crate::backend::RemoteObjectRefView;
use crate::block::BlockMap;
use crate::channel_laws::{
    before_superblock, leaf_remotes, lemma_published, published_superblock, uploaded_until, uploads,
};
use crate::clock::Timestamp;
use crate::commit::{
    commit_resumed, commit_started, is_tree, CommitActionView, CommitError, CommitOpView,
    CommitReplyView, CommitStageView, CommitStepView,
};
use crate::config::ConfigView;
use crate::digest::sha256_text;
use crate::envelope::{envelope_bytes, EnvelopeView};
use crate::manifest::{
    manifest_leaves, nth_leaf, tree_root_of, LeafRefView, ManifestView, TreeLeafView,
};
use crate::manifest_laws::well_formed_manifest;
use crate::recovery::{
    fetch_started, recovery_resumed, recovery_started, FetchReplyView, FetchStepView,
    RecoverStepView,
};
use crate::recovery_laws::{
    commit_answered, commit_leads_to, commit_state, fetch_leads_to, fetch_rounds, gives_back,
    includes, lemma_commit_resumed, lemma_commit_started, Channel, Codec, CommitEvent,
};
use crate::superblock::SuperblockView;

verus! {

/// What a commit asked for and what it was told, in order.
pub open spec fn commit_exchanges(
    manifest: ManifestView,
    map: BlockMap,
    step: CommitStepView,
    events: Seq<CommitEvent>,
) -> Seq<(CommitActionView, CommitReplyView)>
    decreases events.len(),
{
    if events.len() == 0 {
        Seq::empty()
    } else {
        match step {
            CommitStepView::Wait { op, action } => seq![(action, events[0].reply)]
                + commit_exchanges(
                manifest,
                map,
                commit_resumed(manifest, map, op, events[0].reply, events[0].now),
                events.skip(1),
            ),
            _ => Seq::empty(),
        }
    }
}

/// The stored form of a part of a manifest, of the manifest's generation.
pub open spec fn part_bytes(
    manifest: ManifestView,
    map: BlockMap,
    object_id: u64,
    payload: Seq<u8>,
) -> Seq<u8> {
    envelope_bytes(
        EnvelopeView {
            object_id,
            generation: manifest.generation,
            object_size: map.object_size,
            flags: 0,
            payload,
        },
    )
}

/// The exchange uploads the part under the number and the manifest's generation, with its
/// digest.
pub open spec fn sends_part(
    manifest: ManifestView,
    map: BlockMap,
    object_id: int,
    payload: Seq<u8>,
    exchange: (CommitActionView, CommitReplyView),
) -> bool {
    &&& 0 <= object_id <= u64::MAX
    &&& exchange.0 == (CommitActionView::Send {
        object_id: object_id as u64,
        generation: manifest.generation,
        payload: part_bytes(manifest, map, object_id as u64, payload),
        sha256: sha256_text(part_bytes(manifest, map, object_id as u64, payload)),
    })
    &&& exchange.1 is Sent
}

/// The last exchanges of a commit, from the upload of the whole manifest or of the root on:
/// the upload, reading it back, reading the pinned superblock, and the new superblock, which is
/// encoded and published behind its prefix.
pub open spec fn is_commit_end(
    manifest: ManifestView,
    map: BlockMap,
    payload: Seq<u8>,
    run: Seq<(CommitActionView, CommitReplyView)>,
) -> bool {
    &&& run.len() == 5
    &&& sends_part(manifest, map, 0xffff_ffff_ffff_fffe, payload, run[0])
    &&& run[1].0 == (CommitActionView::Fetch { reference: run[0].1->reference })
    &&& run[1].1 is Fetched
    &&& run[2].0 == CommitActionView::ReadPinned
    &&& run[2].1 is Pinned
    &&& run[3].0 is EncodeSuperblock
    &&& run[3].1 is Text
    &&& run[4].0 == (CommitActionView::Publish {
        text: "TGDRIVE_SUPERBLOCK_V1\n"@ + run[3].1->encoded,
    })
    &&& run[4].1 is Published
}

/// The exchanges of a commit of a manifest stored as a tree, from its `at`-th leaf on: each
/// leaf is encoded and uploaded, then the root, which names where they went.
pub open spec fn is_tree_run(
    manifest: ManifestView,
    map: BlockMap,
    refs: Seq<RemoteObjectRefView>,
    at: int,
    count: int,
    run: Seq<(CommitActionView, CommitReplyView)>,
) -> bool
    decreases count - at,
{
    if at < count {
        &&& run.len() >= 2
        &&& run[0].0 == (CommitActionView::EncodeLeaf { leaf: nth_leaf(manifest, 4096, at) })
        &&& run[0].1 is Encoded
        &&& sends_part(
            manifest,
            map,
            0xffff_ffff_ffff_ffff - 1_000_000 - at,
            run[0].1->bytes,
            run[1],
        )
        &&& is_tree_run(
            manifest,
            map,
            refs.push(run[1].1->reference),
            at + 1,
            count,
            run.skip(2),
        )
    } else {
        &&& run.len() == 6
        &&& run[0].0 matches CommitActionView::EncodeRoot { root } && {
            &&& root.magic == "TGDRIVE_MANIFEST_ROOT"@
            &&& root.format_version == 1
            &&& root.device_uuid == manifest.device_uuid
            &&& root.generation == manifest.generation
            &&& root.object_size == manifest.object_size
            &&& root.object_count == manifest.object_count
            &&& root.leaf_span == 4096
            &&& root.garbage == manifest.garbage
            &&& root.leaves.len() == count
            &&& forall|k: int|
                0 <= k < count ==> (#[trigger] root.leaves[k]).remote == refs[k]
                    && root.leaves[k].leaf_index == k && root.leaves[k].start_object_id
                    == nth_leaf(manifest, 4096, k).start_object_id && root.leaves[k].object_count
                    == nth_leaf(manifest, 4096, k).objects.len() as u64
        }
        &&& run[0].1 is Encoded
        &&& is_commit_end(manifest, map, run[0].1->bytes, run.skip(1))
    }
}

/// The exchanges of a whole commit: a manifest of up to 4096 objects is stored as a whole, a
/// larger one as a tree with one leaf for each 4096 objects begun.
pub open spec fn is_commit_run(
    manifest: ManifestView,
    map: BlockMap,
    run: Seq<(CommitActionView, CommitReplyView)>,
) -> bool {
    if manifest.objects.len() <= 4096 {
        &&& run.len() == 6
        &&& run[0].0 == CommitActionView::EncodeManifest
        &&& run[0].1 is Encoded
        &&& is_commit_end(manifest, map, run[0].1->bytes, run.skip(1))
    } else {
        is_tree_run(
            manifest,
            map,
            Seq::empty(),
            0,
            (manifest.objects.len() + 4095) as int / 4096,
            run,
        )
    }
}

/// A commit on its way waits for what its stage asks for.
spec fn commit_shape(manifest: ManifestView, map: BlockMap, step: CommitStepView) -> bool {
    let leaves = manifest_leaves(manifest, 4096);
    step matches CommitStepView::Wait { op, action } && {
        &&& is_tree(manifest) ==> op.leaves == leaves
        &&& is_tree(manifest) && !(op.stage is EncodeLeaf) && !(op.stage is SendLeaf)
            ==> refs_shape(leaves, op.refs, leaves.len() as int)
        &&& match op.stage {
            CommitStageView::EncodeFlat => {
                &&& !is_tree(manifest)
                &&& action == CommitActionView::EncodeManifest
            },
            CommitStageView::EncodeLeaf { at } => {
                &&& is_tree(manifest)
                &&& 0 <= at < leaves.len()
                &&& refs_shape(leaves, op.refs, at)
                &&& action == (CommitActionView::EncodeLeaf { leaf: leaves[at] })
            },
            CommitStageView::SendLeaf { at } => {
                &&& is_tree(manifest)
                &&& 0 <= at < leaves.len()
                &&& refs_shape(leaves, op.refs, at)
                &&& action is Send
            },
            CommitStageView::EncodeRoot => {
                &&& is_tree(manifest)
                &&& action == (CommitActionView::EncodeRoot {
                    root: tree_root_of(manifest, op.refs),
                })
            },
            CommitStageView::SendRoot => action is Send,
            CommitStageView::CheckRoot { reference } => action == (CommitActionView::Fetch {
                reference,
            }),
            CommitStageView::ReadPinned { .. } => action == CommitActionView::ReadPinned,
            CommitStageView::EncodeSuperblock => action is EncodeSuperblock,
            CommitStageView::Publish => action is Publish,
        }
    }
}

/// The references of the first `count` leaves, in order.
spec fn refs_shape(leaves: Seq<TreeLeafView>, refs: Seq<LeafRefView>, count: int) -> bool {
    &&& refs.len() == count
    &&& count <= leaves.len()
    &&& forall|k: int|
        0 <= k < count ==> (#[trigger] refs[k]).leaf_index == leaves[k].leaf_index
            && refs[k].start_object_id == leaves[k].start_object_id && refs[k].object_count
            == leaves[k].objects.len() as u64
}

/// The exchanges that are still to come where a commit stands.
spec fn commit_rest(
    manifest: ManifestView,
    map: BlockMap,
    op: CommitOpView,
    action: CommitActionView,
    run: Seq<(CommitActionView, CommitReplyView)>,
) -> bool {
    let count = (manifest.objects.len() + 4095) as int / 4096;
    match op.stage {
        CommitStageView::EncodeFlat => {
            &&& run.len() == 6
            &&& run[0].0 == CommitActionView::EncodeManifest
            &&& run[0].1 is Encoded
            &&& is_commit_end(manifest, map, run[0].1->bytes, run.skip(1))
        },
        CommitStageView::EncodeLeaf { at } => is_tree_run(
            manifest,
            map,
            leaf_remotes(op.refs),
            at,
            count,
            run,
        ),
        CommitStageView::SendLeaf { at } => {
            &&& run.len() >= 1
            &&& run[0].0 == action
            &&& run[0].1 is Sent
            &&& is_tree_run(
                manifest,
                map,
                leaf_remotes(op.refs).push(run[0].1->reference),
                at + 1,
                count,
                run.skip(1),
            )
        },
        CommitStageView::EncodeRoot => is_tree_run(
            manifest,
            map,
            leaf_remotes(op.refs),
            count,
            count,
            run,
        ),
        CommitStageView::SendRoot => {
            &&& run.len() == 5
            &&& run[0].0 == action
            &&& run[0].1 is Sent
            &&& run[1].0 == (CommitActionView::Fetch { reference: run[0].1->reference })
            &&& commit_tail(run, 1)
        },
        CommitStageView::CheckRoot { .. } => run.len() == 4 && run[0].0 == action && commit_tail(
            run,
            0,
        ),
        CommitStageView::ReadPinned { .. } => run.len() == 3 && commit_tail(run, -1),
        CommitStageView::EncodeSuperblock => run.len() == 2 && commit_tail(run, -2),
        CommitStageView::Publish => run.len() == 1 && run[0].0 == action && run[0].1 is Published,
    }
}

/// The exchanges from the reading back at position `at` on, as far as they are there.
spec fn commit_tail(run: Seq<(CommitActionView, CommitReplyView)>, at: int) -> bool {
    &&& at >= 0 ==> run[at].1 is Fetched
    &&& at + 1 >= 0 ==> run[at + 1].0 == CommitActionView::ReadPinned && run[at + 1].1 is Pinned
    &&& run[at + 2].0 is EncodeSuperblock
    &&& run[at + 2].1 is Text
    &&& run[at + 3].0 == (CommitActionView::Publish {
        text: "TGDRIVE_SUPERBLOCK_V1\n"@ + run[at + 2].1->encoded,
    })
    &&& run[at + 3].1 is Published
}

proof fn lemma_commit_run(
    codec: Codec,
    manifest: ManifestView,
    map: BlockMap,
    step: CommitStepView,
    channel: Channel,
    events: Seq<CommitEvent>,
    last: CommitStepView,
    after: Channel,
)
    requires
        manifest.objects.len() <= u64::MAX,
        commit_shape(manifest, map, step),
        commit_leads_to(codec, manifest, map, step, channel, events, last, after),
        last is Finished,
    ensures
        commit_rest(
            manifest,
            map,
            step->op,
            step->action,
            commit_exchanges(manifest, map, step, events),
        ),
    decreases events.len(),
{
    reveal_with_fuel(commit_leads_to, 2);
    let event = events[0];
    let rest = events.skip(1);
    let op = step->op;
    let action = step->action;
    let next = commit_resumed(manifest, map, op, event.reply, event.now);
    let run = commit_exchanges(manifest, map, step, events);
    let later = commit_exchanges(manifest, map, next, rest);
    let leaves = manifest_leaves(manifest, 4096);
    let count = (manifest.objects.len() + 4095) as int / 4096;
    assert(leaves.len() == count);
    assert(run == seq![(action, event.reply)] + later);
    assert(run.skip(1) =~= later);
    if op.stage is Publish {
        assert(rest.len() == 0);
    } else {
        match (op.stage, event.reply) {
            (CommitStageView::SendLeaf { at }, CommitReplyView::Sent { reference }) => {
                let refs = op.refs.push(crate::commit::leaf_ref(leaves[at], reference));
                assert(leaf_remotes(refs) =~= leaf_remotes(op.refs).push(reference));
                assert(refs_shape(leaves, refs, at + 1));
            },
            _ => {},
        }
        assert(commit_shape(manifest, map, next));
        lemma_commit_run(codec, manifest, map, next, event.channel, rest, last, after);
        match op.stage {
            CommitStageView::EncodeLeaf { at } => {
                assert(run.skip(2) =~= later.skip(1));
                assert(leaves[at] == nth_leaf(manifest, 4096, at));
            },
            CommitStageView::EncodeRoot => {
                assert(run.skip(1)[0] == later[0]);
            },
            _ => {},
        }
    }
}

/// A commit that finishes has gone this way: a manifest of up to 4096 objects is encoded and
/// uploaded as a whole; of a larger one each leaf is, in order, and then the root that names
/// where the leaves went. Every part is uploaded in its stored form, under its own number and
/// the manifest's generation, with its digest. What was uploaded last is read back, the pinned
/// superblock is read, and the new superblock is encoded and published behind its prefix.
pub proof fn law_commit_uploads_then_publishes(
    codec: Codec,
    manifest: ManifestView,
    map: BlockMap,
    channel: Channel,
    events: Seq<CommitEvent>,
    last: CommitStepView,
    after: Channel,
)
    requires
        manifest.objects.len() <= u64::MAX,
        commit_leads_to(
            codec,
            manifest,
            map,
            commit_started(manifest),
            channel,
            events,
            last,
            after,
        ),
        last is Finished,
    ensures
        is_commit_run(
            manifest,
            map,
            commit_exchanges(manifest, map, commit_started(manifest), events),
        ),
{
    let first = commit_started(manifest);
    let leaves = manifest_leaves(manifest, 4096);
    assert(leaves.len() == (manifest.objects.len() + 4095) as int / 4096);
    assert(commit_shape(manifest, map, first));
    lemma_commit_run(codec, manifest, map, first, channel, events, last, after);
    if is_tree(manifest) {
        assert(leaf_remotes(first->op.refs) =~= Seq::<RemoteObjectRefView>::empty());
    }
}

/// The superblock `s` says of the device what the manifest and the block map say, leads to the
/// manifest where `reference` says, remembers the manifest to which `previous` leads, and keeps
/// the time at which the device began; `now` is the time of the commit.
pub open spec fn tells_of_commit(
    manifest: ManifestView,
    map: BlockMap,
    reference: RemoteObjectRefView,
    previous: Option<SuperblockView>,
    now: Timestamp,
    s: SuperblockView,
) -> bool {
    &&& s.magic == "TGDRIVE_SUPERBLOCK"@
    &&& s.format_version == 1
    &&& s.device_uuid == manifest.device_uuid
    &&& s.device_size == map.device_size
    &&& s.logical_sector_size == map.logical_sector_size
    &&& s.object_size == map.object_size
    &&& s.current_manifest_message_id == reference.message_id
    &&& s.manifest_generation == reference.generation
    &&& s.manifest_hash == reference.sha256
    &&& s.manifest_encoding is Tree <==> manifest.objects.len() > 4096
    &&& s.root_index_message_id == if manifest.objects.len() > 4096 {
        Some(reference.message_id)
    } else {
        None
    }
    &&& match previous {
        Some(p) => {
            &&& s.previous_manifest_message_id == Some(p.current_manifest_message_id)
            &&& s.previous_manifest_hash == Some(p.manifest_hash)
            &&& s.previous_manifest_generation == Some(p.manifest_generation)
            &&& s.created_at == p.created_at
        },
        None => {
            &&& s.previous_manifest_message_id is None
            &&& s.previous_manifest_hash is None
            &&& s.previous_manifest_generation is None
            &&& s.created_at == now
        },
    }
    &&& s.last_commit_at == now
}

/// Where on its way a commit makes its superblock.
proof fn lemma_superblock_is_made(
    codec: Codec,
    manifest: ManifestView,
    map: BlockMap,
    step: CommitStepView,
    channel: Channel,
    events: Seq<CommitEvent>,
    last: CommitStepView,
    after: Channel,
) -> (k: int)
    requires
        before_superblock(step),
        commit_leads_to(codec, manifest, map, step, channel, events, last, after),
        published_superblock(manifest, map, step, events) is Some,
        step matches CommitStepView::Wait { op, action } && (action is EncodeSuperblock
            ==> op.stage is EncodeSuperblock),
    ensures
        0 <= k < events.len(),
        events[k].reply is Pinned,
        uploads(events.take(k)).len() + uploaded_until(step->op).len() > 0,
        tells_of_commit(
            manifest,
            map,
            (uploaded_until(step->op) + uploads(events.take(k))).last(),
            events[k].reply->superblock,
            events[k].now,
            published_superblock(manifest, map, step, events)->0,
        ),
    decreases events.len(),
{
    reveal_with_fuel(published_superblock, 2);
    let event = events[0];
    let rest = events.skip(1);
    let op = step->op;
    let next = commit_resumed(manifest, map, op, event.reply, event.now);
    match (op.stage, event.reply) {
        (CommitStageView::ReadPinned { reference }, CommitReplyView::Pinned { superblock }) => {
            assert(events.take(0) =~= Seq::<CommitEvent>::empty());
            assert(uploaded_until(op) + uploads(events.take(0)) =~= uploaded_until(op));
            assert(uploaded_until(op).last() == reference);
            0
        },
        _ => {
            assert(before_superblock(next));
            let k = lemma_superblock_is_made(
                codec,
                manifest,
                map,
                next,
                event.channel,
                rest,
                last,
                after,
            );
            assert(events.take(k + 1).skip(1) =~= rest.take(k));
            assert(events.take(k + 1)[0] == event);
            match event.reply {
                CommitReplyView::Sent { reference } => {
                    assert(uploaded_until(next->op) =~= uploaded_until(op).push(reference));
                    assert(uploaded_until(op) + uploads(events.take(k + 1)) =~= uploaded_until(
                        next->op,
                    ) + uploads(rest.take(k)));
                },
                _ => {
                    assert(uploaded_until(next->op) =~= uploaded_until(op));
                },
            }
            k + 1
        },
    }
}

/// The superblock that a commit publishes has the sizes of the block map and the identity of
/// the manifest, and leads to what the commit uploaded last; it says whether that is the root
/// of a tree, remembers the manifest of the superblock that was pinned, and has the time at
/// which the pinned superblock was read as its own.
pub proof fn law_published_superblock_tells_of_the_commit(
    codec: Codec,
    manifest: ManifestView,
    map: BlockMap,
    channel: Channel,
    events: Seq<CommitEvent>,
    last: CommitStepView,
    after: Channel,
)
    requires
        commit_leads_to(
            codec,
            manifest,
            map,
            commit_started(manifest),
            channel,
            events,
            last,
            after,
        ),
        published_superblock(manifest, map, commit_started(manifest), events) is Some,
    ensures
        exists|k: int|
            {
                &&& 0 <= k < events.len()
                &&& (#[trigger] events[k]).reply is Pinned
                &&& uploads(events.take(k)).len() > 0
                &&& tells_of_commit(
                    manifest,
                    map,
                    uploads(events.take(k)).last(),
                    events[k].reply->superblock,
                    events[k].now,
                    published_superblock(manifest, map, commit_started(manifest), events)->0,
                )
            },
{
    let first = commit_started(manifest);
    let k = lemma_superblock_is_made(
        codec,
        manifest,
        map,
        first,
        channel,
        events,
        last,
        after,
    );
    assert(uploaded_until(first->op) =~= Seq::<RemoteObjectRefView>::empty());
    assert(uploaded_until(first->op) + uploads(events.take(k)) =~= uploads(events.take(k)));
}

/// Recovery with the settings of the device gets back what was committed: begun with the
/// superblock that the commit published, it fetches the manifest, is not refused, and recovers
/// it.
pub proof fn law_recovery_gets_back_what_was_committed(
    codec: Codec,
    manifest: ManifestView,
    map: BlockMap,
    channel: Channel,
    events: Seq<CommitEvent>,
    last: CommitStepView,
    after: Channel,
    config: ConfigView,
    later: Channel,
    chat_id: i64,
    replies: Seq<FetchReplyView>,
)
    requires
        gives_back(codec, manifest),
        well_formed_manifest(manifest),
        commit_leads_to(
            codec,
            manifest,
            map,
            commit_started(manifest),
            channel,
            events,
            last,
            after,
        ),
        last is Finished,
        includes(later, after),
        config.device_size == map.device_size,
        config.object_size == map.object_size,
    ensures
        published_superblock(manifest, map, commit_started(manifest), events) matches Some(s) && {
            &&& recovery_started(config, Some(s)) == (RecoverStepView::Fetch {
                superblock: s,
                current: true,
            })
            &&& forall|end: FetchStepView| #[trigger]
                fetch_leads_to(codec, later, fetch_started(s, chat_id), replies, end)
                    && replies.len() == fetch_rounds(manifest) ==> end == (FetchStepView::Found {
                    manifest,
                })
            &&& recovery_resumed(s, true, Some(manifest)) == (RecoverStepView::Recovered {
                manifest,
            })
        },
{
    let first = commit_started(manifest);
    let none = Set::<i32>::empty();
    assert(channel.remove_keys(none) =~= channel);
    assert(after.remove_keys(none) =~= after);
    lemma_commit_started(codec, manifest, map, channel);
    let at = lemma_published(
        codec,
        manifest,
        map,
        first,
        channel,
        events,
        last,
        after,
        none,
    );
    let s = published_superblock(manifest, map, first, events)->0;
    law_published_superblock_tells_of_the_commit(
        codec,
        manifest,
        map,
        channel,
        events,
        last,
        after,
    );
    assert forall|end: FetchStepView| #[trigger]
        fetch_leads_to(codec, later, fetch_started(s, chat_id), replies, end) && replies.len()
            == fetch_rounds(manifest) implies end == (FetchStepView::Found { manifest }) by {
        crate::channel_laws::law_published_superblock_leads_to_the_manifest(
            codec,
            manifest,
            map,
            channel,
            events,
            last,
            after,
            later,
            chat_id,
            replies,
            end,
        );
    }
}

/// How many replies a commit waits for.
spec fn commit_rounds(manifest: ManifestView, step: CommitStepView) -> int {
    let count = manifest_leaves(manifest, 4096).len() as int;
    match step {
        CommitStepView::Wait { op, .. } => match op.stage {
            CommitStageView::EncodeFlat => 6,
            CommitStageView::EncodeLeaf { at } => 2 * (count - at) + 6,
            CommitStageView::SendLeaf { at } => 2 * (count - at) + 5,
            CommitStageView::EncodeRoot => 6,
            CommitStageView::SendRoot => 5,
            CommitStageView::CheckRoot { .. } => 4,
            CommitStageView::ReadPinned { .. } => 3,
            CommitStageView::EncodeSuperblock => 2,
            CommitStageView::Publish => 1,
        },
        _ => 0,
    }
}

proof fn lemma_commit_goes_on(
    codec: Codec,
    manifest: ManifestView,
    map: BlockMap,
    op: CommitOpView,
    action: CommitActionView,
    channel: Channel,
    reply: CommitReplyView,
    now: Timestamp,
    after: Channel,
)
    requires
        commit_state(codec, manifest, map, CommitStepView::Wait { op, action }, channel),
        commit_answered(codec, manifest, channel, action, reply, after),
        !(reply is Failed),
    ensures
        ({
            let next = commit_resumed(manifest, map, op, reply, now);
            &&& !(next is Refused)
            &&& commit_rounds(manifest, next) == commit_rounds(
                manifest,
                (CommitStepView::Wait { op, action }),
            ) - 1
            &&& next is Finished <==> op.stage is Publish
        }),
{
    match op.stage {
        CommitStageView::CheckRoot { reference } => {
            let inner = if is_tree(manifest) {
                (codec.write_root)(tree_root_of(manifest, op.refs))
            } else {
                (codec.write_manifest)(manifest)
            };
            crate::recovery_laws::lemma_holds_opens(
                channel,
                reference,
                crate::manifest::MANIFEST_OBJECT_ID,
                manifest.generation,
                map.object_size,
                inner,
            );
        },
        _ => {},
    }
}

proof fn lemma_commit_ends(
    codec: Codec,
    manifest: ManifestView,
    map: BlockMap,
    step: CommitStepView,
    channel: Channel,
    events: Seq<CommitEvent>,
    last: CommitStepView,
    after: Channel,
)
    requires
        commit_state(codec, manifest, map, step, channel),
        !(step is Refused),
        commit_leads_to(codec, manifest, map, step, channel, events, last, after),
    ensures
        last is Refused ==> events.len() > 0 && events.last().reply is Failed && last == (
        CommitStepView::Refused { error: CommitError::Outside }),
        !(last is Refused) ==> events.len() + commit_rounds(manifest, last) == commit_rounds(
            manifest,
            step,
        ),
    decreases events.len(),
{
    if events.len() > 0 {
        reveal_with_fuel(commit_leads_to, 2);
        match step {
            CommitStepView::Wait { op, action } => {
                let event = events[0];
                let rest = events.skip(1);
                let next = commit_resumed(manifest, map, op, event.reply, event.now);
                if rest.len() > 0 {
                    assert(rest.last() == events.last());
                }
                if !(event.reply is Failed) {
                    lemma_commit_goes_on(
                        codec,
                        manifest,
                        map,
                        op,
                        action,
                        channel,
                        event.reply,
                        event.now,
                        event.channel,
                    );
                    lemma_commit_resumed(
                        codec,
                        manifest,
                        map,
                        op,
                        action,
                        channel,
                        event.reply,
                        event.now,
                        event.channel,
                    );
                    lemma_commit_ends(
                        codec,
                        manifest,
                        map,
                        next,
                        event.channel,
                        rest,
                        last,
                        after,
                    );
                }
            },
            _ => {},
        }
    }
}

/// Every commit comes to an end: it is refused only where the outside work that it asked for
/// last failed, and else finishes after six replies, and two more for each leaf of a manifest
/// of more than 4096 objects.
pub proof fn law_commits_end(
    codec: Codec,
    manifest: ManifestView,
    map: BlockMap,
    channel: Channel,
    events: Seq<CommitEvent>,
    last: CommitStepView,
    after: Channel,
)
    requires
        commit_leads_to(
            codec,
            manifest,
            map,
            commit_started(manifest),
            channel,
            events,
            last,
            after,
        ),
    ensures
        last is Refused ==> events.len() > 0 && events.last().reply is Failed && last == (
        CommitStepView::Refused { error: CommitError::Outside }),
        ({
            let needed = if manifest.objects.len() <= 4096 {
                6
            } else {
                6 + 2 * ((manifest.objects.len() + 4095) as int / 4096)
            };
            !(last is Refused) ==> events.len() <= needed && (last is Finished <==> events.len()
                == needed)
        }),
{
    let first = commit_started(manifest);
    lemma_commit_started(codec, manifest, map, channel);
    lemma_commit_ends(codec, manifest, map, first, channel, events, last, after);
    crate::recovery_laws::lemma_commit_leads(
        codec,
        manifest,
        map,
        first,
        channel,
        events,
        last,
        after,
    );
    assert(manifest_leaves(manifest, 4096).len() == (manifest.objects.len() + 4095) as int / 4096);
}

/// What a leaf of a manifest lists: as many objects as the span, or those that are left, from
/// where the leaves before it end, under the number of the first, for the device and the
/// generation of the manifest.
pub proof fn law_leaf_lists_its_objects(manifest: ManifestView, span: nat, i: int, k: int)
    requires
        0 < span,
        0 <= i * span < manifest.objects.len(),
    ensures
        ({
            let leaf = nth_leaf(manifest, span, i);
            let from = i * span;
            &&& leaf.magic == "TGDRIVE_MANIFEST_LEAF"@
            &&& leaf.format_version == 1
            &&& leaf.device_uuid == manifest.device_uuid
            &&& leaf.generation == manifest.generation
            &&& 0 <= i <= u64::MAX ==> leaf.leaf_index == i
            &&& leaf.start_object_id == manifest.objects[from].object_id
            &&& leaf.objects.len() == if from + span <= manifest.objects.len() {
                span as int
            } else {
                manifest.objects.len() - from
            }
            &&& 0 <= k < leaf.objects.len() ==> leaf.objects[k] == manifest.objects[from + k]
        }),
{
}

} // verus!
