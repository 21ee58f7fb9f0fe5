//! How far the account's updates have been read.
use vstd::prelude::*;

verus! {

/// How far the updates of a channel have been read.
#[derive(Debug, Clone, Copy, PartialEq, Eq, Structural)]
pub struct ChannelProgress {
    pub id: i64,
    pub pts: i32,
}

/// How far all updates have been read.
#[derive(Debug, PartialEq, Eq)]
pub struct UpdateProgress {
    pub pts: i32,
    pub qts: i32,
    pub date: i32,
    pub seq: i32,
    pub channels: Vec<ChannelProgress>,
}

/// The value of an [`UpdateProgress`].
#[verifier::ext_equal]
pub struct ProgressView {
    pub pts: i32,
    pub qts: i32,
    pub date: i32,
    pub seq: i32,
    pub channels: Seq<ChannelProgress>,
}

impl View for UpdateProgress {
    type V = ProgressView;

    open spec fn view(&self) -> ProgressView {
        ProgressView {
            pts: self.pts,
            qts: self.qts,
            date: self.date,
            seq: self.seq,
            channels: self.channels@,
        }
    }
}

/// What was read since.
#[derive(Debug, PartialEq, Eq)]
pub enum ProgressUpdate {
    /// Everything, anew.
    All { progress: UpdateProgress },
    Primary { pts: i32, date: i32, seq: i32 },
    Secondary { qts: i32 },
    Channel { id: i64, pts: i32 },
}

/// The channels other than the given one.
pub open spec fn channels_without(channels: Seq<ChannelProgress>, id: i64) -> Seq<ChannelProgress> {
    channels.filter(|channel: ChannelProgress| channel.id != id)
}

/// How far updates have been read after one more piece of news; a channel that was read
/// further goes to the end.
pub open spec fn progressed(before: ProgressView, update: ProgressUpdate) -> ProgressView {
    match update {
        ProgressUpdate::All { progress } => progress@,
        ProgressUpdate::Primary { pts, date, seq } => ProgressView { pts, date, seq, ..before },
        ProgressUpdate::Secondary { qts } => ProgressView { qts, ..before },
        ProgressUpdate::Channel { id, pts } => ProgressView {
            channels: channels_without(before.channels, id).push(ChannelProgress { id, pts }),
            ..before
        },
    }
}

impl UpdateProgress {
    /// Takes note of what was read.
    pub fn set_update_state(&mut self, update: ProgressUpdate)
        ensures
            final(self)@ == progressed(old(self)@, update),
    {
        match update {
            ProgressUpdate::All { progress } => {
                *self = progress;
            },
            ProgressUpdate::Primary { pts, date, seq } => {
                self.pts = pts;
                self.date = date;
                self.seq = seq;
            },
            ProgressUpdate::Secondary { qts } => {
                self.qts = qts;
            },
            ProgressUpdate::Channel { id, pts } => {
                self.retain_others(id);
                self.channels.push(ChannelProgress { id, pts });
            },
        }
    }

    fn retain_others(&mut self, id: i64)
        ensures
            final(self)@ == (ProgressView {
                channels: channels_without(old(self)@.channels, id),
                ..old(self)@
            }),
    {
        let ghost before = self@;
        let ghost others = |channel: ChannelProgress| channel.id != id;
        let mut kept: Vec<ChannelProgress> = Vec::new();
        let mut i: usize = 0;
        proof {
            reveal(Seq::filter);
            assert(before.channels.take(0).filter(others) =~= Seq::<ChannelProgress>::empty());
        }
        while i < self.channels.len()
            invariant
                i <= self.channels@.len(),
                self@ == before,
                others == (|channel: ChannelProgress| channel.id != id),
                kept@ == before.channels.take(i as int).filter(others),
            decreases self.channels@.len() - i,
        {
            proof {
                reveal(Seq::filter);
                let head = before.channels.take(i + 1);
                assert(head.drop_last() =~= before.channels.take(i as int));
                assert(head.last() == before.channels[i as int]);
            }
            if self.channels[i].id != id {
                kept.push(self.channels[i]);
            }
            i += 1;
        }
        assert(before.channels.take(i as int) =~= before.channels);
        self.channels = kept;
    }
}

/// No channel stands twice.
pub open spec fn channels_once(channels: Seq<ChannelProgress>) -> bool {
    forall|i: int, j: int|
        0 <= i < j < channels.len() ==> (#[trigger] channels[i]).id != (#[trigger] channels[j]).id
}

/// Where every channel stands once, it does after any news of a channel.
pub proof fn law_channels_stand_once(before: ProgressView, id: i64, pts: i32)
    requires
        channels_once(before.channels),
    ensures
        channels_once(progressed(before, ProgressUpdate::Channel { id, pts }).channels),
        progressed(before, ProgressUpdate::Channel { id, pts }).channels.last() == (
        ChannelProgress { id, pts }),
{
    lemma_others(before.channels, id);
    let rest = channels_without(before.channels, id);
    let all = rest.push(ChannelProgress { id, pts });
    assert forall|i: int, j: int| 0 <= i < j < all.len() implies (#[trigger] all[i]).id != (
    #[trigger] all[j]).id by {
        assert(all[i] == rest[i]);
        if j < rest.len() {
            assert(all[j] == rest[j]);
        }
    }
}

proof fn lemma_others(channels: Seq<ChannelProgress>, id: i64)
    requires
        channels_once(channels),
    ensures
        channels_once(channels_without(channels, id)),
        forall|k: int|
            0 <= k < channels_without(channels, id).len() ==> (#[trigger] channels_without(
                channels,
                id,
            )[k]).id != id && channels.contains(channels_without(channels, id)[k]),
    decreases channels.len(),
{
    reveal(Seq::filter);
    if channels.len() > 0 {
        let head = channels.drop_last();
        assert forall|i: int, j: int| 0 <= i < j < head.len() implies (#[trigger] head[i]).id != (
        #[trigger] head[j]).id by {
            assert(channels[i].id != channels[j].id);
        }
        lemma_others(head, id);
        let part = channels_without(head, id);
        let all = channels_without(channels, id);
        let n = channels.len() - 1;
        assert(channels[n] == channels.last());
        assert forall|k: int| 0 <= k < part.len() implies channels.contains(#[trigger] part[k])
            && part[k].id != channels.last().id by {
            let m = choose|m: int| 0 <= m < head.len() && head[m] == part[k];
            assert(channels[m] == part[k]);
            assert(channels[m].id != channels[n].id);
        }
        assert forall|k: int| 0 <= k < all.len() implies (#[trigger] all[k]).id != id
            && channels.contains(all[k]) by {
            if k < part.len() {
                assert(all[k] == part[k]);
            }
        }
        assert forall|i: int, j: int| 0 <= i < j < all.len() implies (#[trigger] all[i]).id != (
        #[trigger] all[j]).id by {
            assert(all[i] == part[i]);
            if j < part.len() {
                assert(all[j] == part[j]);
            }
        }
    }
}

} // verus!
