use vstd::prelude::*;
use crate::midi_types::MIDITrack;

verus! {

/// `tracks` with only the mute flags changed, to those of `muted`.
pub open spec fn only_mutes_changed(before: Seq<MIDITrack>, after: Seq<MIDITrack>, muted: spec_fn(int) -> bool) -> bool {
    &&& after.len() == before.len()
    &&& forall|t: int| 0 <= t < before.len() ==> {
        &&& (#[trigger] after[t]).muted == muted(t)
        &&& after[t].notes == before[t].notes
        &&& after[t].channel_events == before[t].channel_events
    }
}

/// Mutes and solos the tracks of a project.
pub struct TrackMixer {}

impl TrackMixer {
    pub fn new() -> (r: Self) {
        TrackMixer {}
    }

    /// Sets the mute state of one track.
    pub fn set_track_muted(&mut self, tracks: &mut Vec<MIDITrack>, track: u16, muted: bool)
        requires
            (track as int) < old(tracks)@.len(),
        ensures
            only_mutes_changed(
                old(tracks)@,
                final(tracks)@,
                |t: int| if t == track as int { muted } else { old(tracks)@[t].muted },
            ),
    {
        let ghost before = tracks@;
        let mut taken = MIDITrack::new_empty();
        std::mem::swap(&mut taken, &mut tracks[track as usize]);
        taken.muted = muted;
        tracks.set(track as usize, taken);
        proof {
            assert forall|t: int| 0 <= t < before.len() implies {
                &&& (#[trigger] tracks@[t]).muted == (if t == track as int { muted } else { before[t].muted })
                &&& tracks@[t].notes == before[t].notes
                &&& tracks@[t].channel_events == before[t].channel_events
            } by {}
        }
    }

    /// Mutes every track but `track`, which is unmuted.
    pub fn solo_track(&mut self, tracks: &mut Vec<MIDITrack>, track: u16)
        ensures
            only_mutes_changed(old(tracks)@, final(tracks)@, |t: int| t != track as int),
    {
        let n = tracks.len();
        let ghost before = tracks@;
        for t in 0..n
            invariant
                n == before.len(),
                tracks@.len() == n,
                forall|k: int| 0 <= k < n ==> {
                    &&& (#[trigger] tracks@[k]).notes == before[k].notes
                    &&& tracks@[k].channel_events == before[k].channel_events
                },
                forall|k: int| 0 <= k < t ==> (#[trigger] tracks@[k]).muted == (k != track as int),
        {
            let mut taken = MIDITrack::new_empty();
            std::mem::swap(&mut taken, &mut tracks[t]);
            taken.muted = t != track as usize;
            tracks.set(t, taken);
        }
    }

    /// Unmutes every track.
    pub fn unmute_all_tracks(&mut self, tracks: &mut Vec<MIDITrack>)
        ensures
            only_mutes_changed(old(tracks)@, final(tracks)@, |t: int| false),
    {
        let n = tracks.len();
        let ghost before = tracks@;
        for t in 0..n
            invariant
                n == before.len(),
                tracks@.len() == n,
                forall|k: int| 0 <= k < n ==> {
                    &&& (#[trigger] tracks@[k]).notes == before[k].notes
                    &&& tracks@[k].channel_events == before[k].channel_events
                },
                forall|k: int| 0 <= k < t ==> !(#[trigger] tracks@[k]).muted,
        {
            let mut taken = MIDITrack::new_empty();
            std::mem::swap(&mut taken, &mut tracks[t]);
            taken.muted = false;
            tracks.set(t, taken);
        }
    }
}

} // verus!
