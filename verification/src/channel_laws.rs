//! What a commit leaves in the channel, and what its superblock leads to.
use vstd::prelude::*;

use crate::backend::RemoteObjectRefView;
use crate::block::BlockMap;
use crate::clock::Timestamp;
use crate::commit::{
    commit_resumed, commit_started, is_tree, leaf_object_id, new_superblock, CommitActionView,
    CommitOpView, CommitReplyView, CommitStageView, CommitStepView,
};
use crate::digest::sha256_text;
use crate::envelope::open_envelope;
use crate::manifest::{
    manifest_leaves, nth_leaf, tree_manifest, tree_root_of, LeafRefView, ManifestTreeError,
    ManifestView, MANIFEST_OBJECT_ID, MANIFEST_TREE_LEAF_BASE_OBJECT_ID, MANIFEST_TREE_LEAF_SPAN,
};
use crate::manifest_laws::{law_tree_round_trip, well_formed_manifest};
use crate::recovery::{fetch_started, rolled_back, FetchReplyView, FetchStepView};
use crate::recovery_laws::{
    commit_answered, commit_leads_to, commit_state, fetch_leads_to, fetch_rounds, fetch_state,
    gives_back, includes, law_committed_manifest_is_recovered, lemma_commit_leads,
    lemma_commit_resumed, lemma_commit_started, lemma_fetch_leads, lemma_holds_opens,
    lemma_manifest_held_later, manifest_held, names_manifest, sent_at, Channel, Codec, CommitEvent,
};
use crate::superblock::{manifest_ref_of, stepped_back, SuperblockView};

verus! {

/// What was uploaded, in order.
pub open spec fn uploads(events: Seq<CommitEvent>) -> Seq<RemoteObjectRefView>
    decreases events.len(),
{
    if events.len() == 0 {
        Seq::empty()
    } else {
        let rest = uploads(events.skip(1));
        match events[0].reply {
            CommitReplyView::Sent { reference } => seq![reference] + rest,
            _ => rest,
        }
    }
}

/// Where the leaves went.
pub open spec fn leaf_remotes(refs: Seq<LeafRefView>) -> Seq<RemoteObjectRefView> {
    Seq::new(refs.len(), |i: int| refs[i].remote)
}

/// The payload of the message that the reference names, if it can be opened.
pub open spec fn opened(channel: Channel, reference: RemoteObjectRefView) -> Option<Seq<u8>> {
    match sent_at(channel, reference.message_id) {
        None => None,
        Some(bytes) => match open_envelope(bytes, reference.object_id, reference.generation) {
            Ok(envelope) => Some(envelope.payload),
            Err(_) => None,
        },
    }
}

/// What a commit has uploaded when it has come to a stage before the superblock.
pub open spec fn uploaded_until(op: CommitOpView) -> Seq<RemoteObjectRefView> {
    let leaves = leaf_remotes(op.refs);
    match op.stage {
        CommitStageView::CheckRoot { reference } => leaves.push(reference),
        CommitStageView::ReadPinned { reference } => leaves.push(reference),
        _ => leaves,
    }
}

/// The commit is on its way and has not come to the superblock.
pub open spec fn before_superblock(step: CommitStepView) -> bool {
    step matches CommitStepView::Wait { op, .. } && !(op.stage is EncodeSuperblock) && !(
    op.stage is Publish)
}

proof fn lemma_stays_behind(
    codec: Codec,
    manifest: ManifestView,
    map: BlockMap,
    step: CommitStepView,
    channel: Channel,
    events: Seq<CommitEvent>,
    last: CommitStepView,
    after: Channel,
)
    requires
        !before_superblock(step),
        commit_leads_to(codec, manifest, map, step, channel, events, last, after),
    ensures
        !before_superblock(last),
    decreases events.len(),
{
    if events.len() > 0 {
        match step {
            CommitStepView::Wait { op, .. } => {
                let event = events[0];
                lemma_stays_behind(
                    codec,
                    manifest,
                    map,
                    commit_resumed(manifest, map, op, event.reply, event.now),
                    event.channel,
                    events.skip(1),
                    last,
                    after,
                );
            },
            _ => {},
        }
    }
}

pub proof fn lemma_uploads(
    codec: Codec,
    manifest: ManifestView,
    map: BlockMap,
    step: CommitStepView,
    channel: Channel,
    events: Seq<CommitEvent>,
    last: CommitStepView,
    after: Channel,
)
    requires
        before_superblock(step),
        before_superblock(last),
        commit_leads_to(codec, manifest, map, step, channel, events, last, after),
    ensures
        uploaded_until(last->op) == uploaded_until(step->op) + uploads(events),
    decreases events.len(),
{
    if events.len() > 0 {
        let event = events[0];
        let rest = events.skip(1);
        let next = commit_resumed(manifest, map, step->op, event.reply, event.now);
        if before_superblock(next) {
            lemma_uploads(codec, manifest, map, next, event.channel, rest, last, after);
            match event.reply {
                CommitReplyView::Sent { reference } => {
                    assert(uploaded_until(next->op) =~= uploaded_until(step->op).push(reference));
                    assert(uploaded_until(step->op).push(reference) + uploads(rest)
                        =~= uploaded_until(step->op) + (seq![reference] + uploads(rest)));
                },
                _ => {
                    assert(uploaded_until(next->op) =~= uploaded_until(step->op));
                },
            }
        } else {
            lemma_stays_behind(codec, manifest, map, next, event.channel, rest, last, after);
        }
    } else {
        assert(uploaded_until(step->op) + uploads(events) =~= uploaded_until(step->op));
    }
}

/// Of a manifest stored as a tree, a commit uploads one leaf for each 4096 objects begun,
/// the `i`-th under the number that lies `i` below the base, and behind them one root. The
/// reference to the root has the manifest's number, the manifest's generation and the
/// digest of the uploaded message. What can be opened in the channel are the manifest's
/// leaves and its root, as they were encoded; these make up the manifest again, and so does
/// what is decoded from the channel, where the encoding gives them back.
pub proof fn law_tree_commit_uploads_leaves_and_root(
    codec: Codec,
    manifest: ManifestView,
    map: BlockMap,
    channel: Channel,
    events: Seq<CommitEvent>,
    last: CommitStepView,
    after: Channel,
    reference: RemoteObjectRefView,
)
    requires
        well_formed_manifest(manifest),
        is_tree(manifest),
        commit_leads_to(
            codec,
            manifest,
            map,
            commit_started(manifest),
            channel,
            events,
            last,
            after,
        ),
        last matches CommitStepView::Wait { op, .. } && (op.stage == (CommitStageView::CheckRoot {
            reference,
        }) || op.stage == (CommitStageView::ReadPinned { reference })),
    ensures
        ({
            let refs = last->op.refs;
            let count = (manifest.objects.len() + 4095) / 4096;
            &&& refs.len() == count
            &&& uploads(events) == leaf_remotes(refs).push(reference)
            &&& forall|i: int|
                0 <= i < count ==> (#[trigger] refs[i]).remote.object_id
                    == MANIFEST_TREE_LEAF_BASE_OBJECT_ID - i
            &&& reference.object_id == MANIFEST_OBJECT_ID
            &&& reference.generation == manifest.generation
            &&& sent_at(after, reference.message_id) matches Some(bytes) && reference.sha256
                == sha256_text(bytes)
            &&& opened(after, reference) == Some((codec.write_root)(tree_root_of(manifest, refs)))
            &&& forall|i: int|
                0 <= i < count ==> opened(after, (#[trigger] refs[i]).remote) == Some(
                    (codec.write_leaf)(nth_leaf(manifest, MANIFEST_TREE_LEAF_SPAN as nat, i)),
                )
            &&& tree_manifest(
                tree_root_of(manifest, refs),
                manifest_leaves(manifest, MANIFEST_TREE_LEAF_SPAN as nat),
            ) == Ok::<ManifestView, ManifestTreeError>(manifest)
            &&& gives_back(codec, manifest) ==> tree_manifest(
                (codec.read_root)(opened(after, reference)->0),
                Seq::new(
                    refs.len(),
                    |i: int| (codec.read_leaf)(opened(after, refs[i].remote)->0),
                ),
            ) == Ok::<ManifestView, ManifestTreeError>(manifest)
        }),
{
    let first = commit_started(manifest);
    lemma_commit_started(codec, manifest, map, channel);
    lemma_commit_leads(codec, manifest, map, first, channel, events, last, after);
    lemma_uploads(codec, manifest, map, first, channel, events, last, after);
    let refs = last->op.refs;
    let leaves = manifest_leaves(manifest, MANIFEST_TREE_LEAF_SPAN as nat);
    assert(leaves.len() == (manifest.objects.len() + 4095) / 4096);
    assert(uploaded_until(first->op) + uploads(events) =~= uploads(events));
    let root = tree_root_of(manifest, refs);
    lemma_holds_opens(
        after,
        reference,
        MANIFEST_OBJECT_ID,
        manifest.generation,
        map.object_size,
        (codec.write_root)(root),
    );
    assert(opened(after, reference) == Some((codec.write_root)(root)));
    let read = Seq::new(refs.len(), |i: int| (codec.read_leaf)(opened(after, refs[i].remote)->0));
    assert forall|i: int| 0 <= i < leaves.len() implies opened(after, (#[trigger] refs[i]).remote)
        == Some((codec.write_leaf)(leaves[i])) && refs[i].remote.object_id
        == MANIFEST_TREE_LEAF_BASE_OBJECT_ID - i by {
        lemma_holds_opens(
            after,
            refs[i].remote,
            leaf_object_id(leaves[i].leaf_index),
            manifest.generation,
            map.object_size,
            (codec.write_leaf)(leaves[i]),
        );
    }
    if gives_back(codec, manifest) {
        assert forall|i: int| 0 <= i < leaves.len() implies read[i] == leaves[i] by {
            assert(opened(after, refs[i].remote) == Some((codec.write_leaf)(leaves[i])));
        }
        assert(read =~= leaves);
    }
    law_tree_round_trip(manifest, MANIFEST_TREE_LEAF_SPAN as nat, root, leaves);
}

/// The superblock that a commit publishes: the one that it has encoded on its way.
pub open spec fn published_superblock(
    manifest: ManifestView,
    map: BlockMap,
    step: CommitStepView,
    events: Seq<CommitEvent>,
) -> Option<SuperblockView>
    decreases events.len(),
{
    match step {
        CommitStepView::Wait { op, action } => match action {
            CommitActionView::EncodeSuperblock { superblock } => Some(superblock),
            _ => if events.len() == 0 {
                None
            } else {
                published_superblock(
                    manifest,
                    map,
                    commit_resumed(manifest, map, op, events[0].reply, events[0].now),
                    events.skip(1),
                )
            },
        },
        _ => None,
    }
}

pub proof fn lemma_channel_grows(
    codec: Codec,
    manifest: ManifestView,
    map: BlockMap,
    step: CommitStepView,
    channel: Channel,
    events: Seq<CommitEvent>,
    last: CommitStepView,
    after: Channel,
)
    requires
        commit_leads_to(codec, manifest, map, step, channel, events, last, after),
    ensures
        includes(after, channel),
    decreases events.len(),
{
    if events.len() > 0 {
        match step {
            CommitStepView::Wait { op, action } => {
                let event = events[0];
                assert(commit_answered(
                    codec,
                    manifest,
                    channel,
                    action,
                    event.reply,
                    event.channel,
                ));
                lemma_channel_grows(
                    codec,
                    manifest,
                    map,
                    commit_resumed(manifest, map, op, event.reply, event.now),
                    event.channel,
                    events.skip(1),
                    last,
                    after,
                );
                assert forall|id: i32| #[trigger] channel.dom().contains(id) implies
                    after.dom().contains(id) && after[id] == channel[id] by {
                    assert(event.channel.dom().contains(id));
                }
            },
            _ => {},
        }
    }
}

/// The commit goes on as well for what it holds in the channel without messages that were
/// there before.
proof fn lemma_commit_resumed_without(
    codec: Codec,
    manifest: ManifestView,
    map: BlockMap,
    op: CommitOpView,
    action: CommitActionView,
    channel: Channel,
    reply: CommitReplyView,
    now: Timestamp,
    after: Channel,
    hidden: Set<i32>,
)
    requires
        hidden.subset_of(channel.dom()),
        commit_state(
            codec,
            manifest,
            map,
            CommitStepView::Wait { op, action },
            channel.remove_keys(hidden),
        ),
        commit_answered(codec, manifest, channel, action, reply, after),
    ensures
        hidden.subset_of(after.dom()),
        commit_state(
            codec,
            manifest,
            map,
            commit_resumed(manifest, map, op, reply, now),
            after.remove_keys(hidden),
        ),
{
    let bare = channel.remove_keys(hidden);
    let bare_after = after.remove_keys(hidden);
    assert forall|id: i32| #[trigger] hidden.contains(id) implies after.dom().contains(id) by {
        assert(channel.dom().contains(id));
    }
    match (action, reply) {
        (CommitActionView::Fetch { .. }, CommitReplyView::Fetched { .. }) => {},
        _ => {
            match (action, reply) {
                (CommitActionView::Send { payload, .. }, CommitReplyView::Sent { reference }) => {
                    assert(!hidden.contains(reference.message_id));
                    assert(bare_after =~= bare.insert(reference.message_id, payload));
                },
                _ => {},
            }
            assert(commit_answered(codec, manifest, bare, action, reply, bare_after));
            lemma_commit_resumed(
                codec,
                manifest,
                map,
                op,
                action,
                bare,
                reply,
                now,
                bare_after,
            );
        },
    }
}

pub proof fn lemma_published(
    codec: Codec,
    manifest: ManifestView,
    map: BlockMap,
    step: CommitStepView,
    channel: Channel,
    events: Seq<CommitEvent>,
    last: CommitStepView,
    after: Channel,
    hidden: Set<i32>,
) -> (at: Channel)
    requires
        hidden.subset_of(channel.dom()),
        commit_state(codec, manifest, map, step, channel.remove_keys(hidden)),
        commit_leads_to(codec, manifest, map, step, channel, events, last, after),
        step matches CommitStepView::Wait { op, .. } && !(op.stage is Publish),
        last is Finished,
    ensures
        published_superblock(manifest, map, step, events) matches Some(superblock)
            && names_manifest(codec, manifest, map, at, superblock),
        includes(after.remove_keys(hidden), at),
    decreases events.len(),
{
    let event = events[0];
    match step {
        CommitStepView::Wait { op, action } => {
            if op.stage is EncodeSuperblock {
                lemma_channel_grows(
                    codec,
                    manifest,
                    map,
                    step,
                    channel,
                    events,
                    last,
                    after,
                );
                let bare = channel.remove_keys(hidden);
                let bare_after = after.remove_keys(hidden);
                assert forall|id: i32| #[trigger] bare.dom().contains(id) implies
                    bare_after.dom().contains(id) && bare_after[id] == bare[id] by {
                    assert(channel.dom().contains(id));
                }
                bare
            } else {
                lemma_commit_resumed_without(
                    codec,
                    manifest,
                    map,
                    op,
                    action,
                    channel,
                    event.reply,
                    event.now,
                    event.channel,
                    hidden,
                );
                reveal_with_fuel(commit_leads_to, 2);
                lemma_published(
                    codec,
                    manifest,
                    map,
                    commit_resumed(manifest, map, op, event.reply, event.now),
                    event.channel,
                    events.skip(1),
                    last,
                    after,
                    hidden,
                )
            }
        },
        _ => channel,
    }
}

/// What a commit publishes leads back to what it committed: a commit that finished has
/// published a superblock, and following it through any later state of the channel is never
/// refused and ends with the manifest, whether that is stored as a whole or as a tree.
pub proof fn law_published_superblock_leads_to_the_manifest(
    codec: Codec,
    manifest: ManifestView,
    map: BlockMap,
    channel: Channel,
    events: Seq<CommitEvent>,
    last: CommitStepView,
    after: Channel,
    later: Channel,
    chat_id: i64,
    replies: Seq<FetchReplyView>,
    end: FetchStepView,
)
    requires
        gives_back(codec, manifest),
        well_formed_manifest(manifest),
        commit_leads_to(
            codec,
            manifest,
            map,
            commit_started(manifest),
            channel,
            events,
            last,
            after,
        ),
        last is Finished,
        includes(later, after),
        published_superblock(manifest, map, commit_started(manifest), events) matches Some(
            superblock,
        ) ==> fetch_leads_to(codec, later, fetch_started(superblock, chat_id), replies, end),
    ensures
        published_superblock(manifest, map, commit_started(manifest), events) is Some,
        !(end is Refused),
        replies.len() <= fetch_rounds(manifest),
        replies.len() == fetch_rounds(manifest) ==> end == (FetchStepView::Found { manifest }),
{
    assert(after.remove_keys(Set::<i32>::empty()) =~= after);
    law_old_messages_are_not_needed(
        codec,
        manifest,
        map,
        channel,
        events,
        last,
        after,
        Set::empty(),
        later,
        chat_id,
        replies,
        end,
    );
}

/// What was in the channel before a commit is not needed to recover what it committed: with
/// messages deleted that were there when the commit began, such as those of garbage, the
/// superblock that it published still leads to the manifest.
pub proof fn law_old_messages_are_not_needed(
    codec: Codec,
    manifest: ManifestView,
    map: BlockMap,
    channel: Channel,
    events: Seq<CommitEvent>,
    last: CommitStepView,
    after: Channel,
    deleted: Set<i32>,
    later: Channel,
    chat_id: i64,
    replies: Seq<FetchReplyView>,
    end: FetchStepView,
)
    requires
        gives_back(codec, manifest),
        well_formed_manifest(manifest),
        commit_leads_to(
            codec,
            manifest,
            map,
            commit_started(manifest),
            channel,
            events,
            last,
            after,
        ),
        last is Finished,
        deleted.subset_of(channel.dom()),
        includes(later, after.remove_keys(deleted)),
        published_superblock(manifest, map, commit_started(manifest), events) matches Some(
            superblock,
        ) ==> fetch_leads_to(codec, later, fetch_started(superblock, chat_id), replies, end),
    ensures
        published_superblock(manifest, map, commit_started(manifest), events) is Some,
        !(end is Refused),
        replies.len() <= fetch_rounds(manifest),
        replies.len() == fetch_rounds(manifest) ==> end == (FetchStepView::Found { manifest }),
        end matches FetchStepView::Found { manifest: found } ==> found == manifest,
{
    let first = commit_started(manifest);
    lemma_commit_started(codec, manifest, map, channel.remove_keys(deleted));
    let at = lemma_published(
        codec,
        manifest,
        map,
        first,
        channel,
        events,
        last,
        after,
        deleted,
    );
    let bare = after.remove_keys(deleted);
    assert forall|id: i32| #[trigger] at.dom().contains(id) implies later.dom().contains(id)
        && later[id] == at[id] by {
        assert(bare.dom().contains(id));
    }
    law_committed_manifest_is_recovered(
        codec,
        manifest,
        map,
        at,
        published_superblock(manifest, map, first, events)->0,
        later,
        chat_id,
        replies,
        end,
    );
}

proof fn lemma_previous_is_followed(
    codec: Codec,
    manifest: ManifestView,
    map: BlockMap,
    channel: Channel,
    before: SuperblockView,
    later: Channel,
    back: SuperblockView,
    chat_id: i64,
    replies: Seq<FetchReplyView>,
    end: FetchStepView,
)
    requires
        gives_back(codec, manifest),
        well_formed_manifest(manifest),
        names_manifest(codec, manifest, map, channel, before),
        includes(later, channel),
        back.current_manifest_message_id == before.current_manifest_message_id,
        back.manifest_generation == before.manifest_generation,
        back.manifest_hash == before.manifest_hash,
        back.manifest_encoding is Tree == is_tree(manifest),
        fetch_leads_to(codec, later, fetch_started(back, chat_id), replies, end),
    ensures
        !(end is Refused),
        replies.len() <= fetch_rounds(manifest),
        replies.len() == fetch_rounds(manifest) ==> end == (FetchStepView::Found { manifest }),
{
    let (reference, refs, previous, now) = choose|
        reference: RemoteObjectRefView,
        refs: Seq<LeafRefView>,
        previous: Option<SuperblockView>,
        now: Timestamp,
    |
        #![trigger
            manifest_held(codec, manifest, map, channel, reference, refs),
            new_superblock(manifest, map, reference, previous, now)]
        manifest_held(codec, manifest, map, channel, reference, refs) && before
            == new_superblock(manifest, map, reference, previous, now);
    lemma_manifest_held_later(codec, manifest, map, channel, later, reference, refs);
    let named = manifest_ref_of(back, chat_id);
    assert(manifest_held(codec, manifest, map, later, named, refs));
    let first = fetch_started(back, chat_id);
    assert(fetch_state(codec, manifest, map, later, refs, first));
    lemma_fetch_leads(codec, manifest, map, later, refs, first, replies, end);
}

/// Rolling back recovers the manifest before the current one where that is stored as a
/// whole: the superblock `current` was made when `before`, which leads to the manifest, was
/// the newest. Rolling it back succeeds, and following the result through any later state of
/// the channel is never refused and ends with that manifest.
pub proof fn law_rolled_back_manifest_is_recovered(
    codec: Codec,
    manifest: ManifestView,
    map: BlockMap,
    channel: Channel,
    before: SuperblockView,
    next_manifest: ManifestView,
    next_map: BlockMap,
    reference: RemoteObjectRefView,
    when: Timestamp,
    current: SuperblockView,
    device_uuid: u128,
    now: Timestamp,
    later: Channel,
    chat_id: i64,
    replies: Seq<FetchReplyView>,
    end: FetchStepView,
)
    requires
        gives_back(codec, manifest),
        well_formed_manifest(manifest),
        !is_tree(manifest),
        names_manifest(codec, manifest, map, channel, before),
        current == new_superblock(next_manifest, next_map, reference, Some(before), when),
        includes(later, channel),
        rolled_back(current, device_uuid, chat_id, now) matches Ok(back) ==> fetch_leads_to(
            codec,
            later,
            fetch_started(back, chat_id),
            replies,
            end,
        ),
    ensures
        rolled_back(current, device_uuid, chat_id, now) is Ok,
        !(end is Refused),
        replies.len() <= fetch_rounds(manifest),
        replies.len() == fetch_rounds(manifest) ==> end == (FetchStepView::Found { manifest }),
{
    lemma_previous_is_followed(
        codec,
        manifest,
        map,
        channel,
        before,
        later,
        rolled_back(current, device_uuid, chat_id, now)->Ok_0,
        chat_id,
        replies,
        end,
    );
}

/// Where the current manifest cannot be fetched, the one before it is recovered, if the two
/// are stored in the same way: the superblock `current` was made when `before`, which leads
/// to the manifest, was the newest. Stepping back from it succeeds, and following the result
/// through any later state of the channel is never refused and ends with that manifest.
pub proof fn law_previous_manifest_is_recovered(
    codec: Codec,
    manifest: ManifestView,
    map: BlockMap,
    channel: Channel,
    before: SuperblockView,
    next_manifest: ManifestView,
    next_map: BlockMap,
    reference: RemoteObjectRefView,
    when: Timestamp,
    current: SuperblockView,
    later: Channel,
    chat_id: i64,
    replies: Seq<FetchReplyView>,
    end: FetchStepView,
)
    requires
        gives_back(codec, manifest),
        well_formed_manifest(manifest),
        is_tree(manifest) == is_tree(next_manifest),
        names_manifest(codec, manifest, map, channel, before),
        current == new_superblock(next_manifest, next_map, reference, Some(before), when),
        includes(later, channel),
        stepped_back(current) matches Ok(back) ==> fetch_leads_to(
            codec,
            later,
            fetch_started(back, chat_id),
            replies,
            end,
        ),
    ensures
        stepped_back(current) is Ok,
        !(end is Refused),
        replies.len() <= fetch_rounds(manifest),
        replies.len() == fetch_rounds(manifest) ==> end == (FetchStepView::Found { manifest }),
{
    lemma_previous_is_followed(
        codec,
        manifest,
        map,
        channel,
        before,
        later,
        stepped_back(current)->Ok_0,
        chat_id,
        replies,
        end,
    );
}

} // verus!
