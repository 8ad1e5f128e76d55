use vstd::prelude::*;
use std::collections::VecDeque;
use crate::midi_types::{Note, ChannelEvent, MIDITrack};
use crate::actions::{EditorAction, EditorActions, ActionView, tracks_opt_view, inverse_view};

verus! {

/// A track by its contents: notes, channel events and mute flag.
pub open spec fn track_view(t: MIDITrack) -> (Seq<Note>, Seq<ChannelEvent>, bool) {
    (t.notes@, t.channel_events@, t.muted)
}

pub open spec fn tracks_contents(ts: Seq<MIDITrack>) -> Seq<(Seq<Note>, Seq<ChannelEvent>, bool)> {
    ts.map_values(|t: MIDITrack| track_view(t))
}

/// An empty, unmuted track.
pub open spec fn empty_track() -> (Seq<Note>, Seq<ChannelEvent>, bool) {
    (Seq::empty(), Seq::empty(), false)
}

/// What checking the track count for `track` makes of `ts`: empty tracks are
/// added until `track` exists; with more tracks than that, empty tracks are
/// dropped from the end, as many as there are extra ones at most.
pub open spec fn validated(ts: Seq<(Seq<Note>, Seq<ChannelEvent>, bool)>, track: u16) -> Seq<(Seq<Note>, Seq<ChannelEvent>, bool)> {
    let want = track as int + 1;
    if want >= ts.len() {
        ts + Seq::new((want - ts.len()) as nat, |i: int| empty_track())
    } else {
        drop_empty_back(ts, ts.len() - want)
    }
}

/// Drops up to `n` tracks without notes and channel events from the end.
pub open spec fn drop_empty_back(ts: Seq<(Seq<Note>, Seq<ChannelEvent>, bool)>, n: int) -> Seq<(Seq<Note>, Seq<ChannelEvent>, bool)>
    decreases n,
{
    if n <= 0 || ts.len() == 0 || ts.last().0.len() != 0 || ts.last().1.len() != 0 {
        ts
    } else {
        drop_empty_back(ts.drop_last(), n - 1)
    }
}

/// Makes sure track `track` exists: adds empty tracks up to it, or drops
/// empty tracks from the end down to it.
pub fn validate_tracks(tracks: &mut Vec<MIDITrack>, track: u16)
    requires
        track < u16::MAX,
    ensures
        tracks_contents(final(tracks)@) == validated(tracks_contents(old(tracks)@), track),
{
    let ghost c0 = tracks_contents(tracks@);
    let new_len: usize = track as usize + 1;
    if tracks.len() < new_len {
        let add = new_len - tracks.len();
        let start = tracks.len();
        for i in 0..add
            invariant
                add == new_len - start,
                start == c0.len(),
                tracks_contents(tracks@) == c0 + Seq::new(i as nat, |j: int| empty_track()),
        {
            let e = MIDITrack::new_empty();
            let ghost prev = tracks_contents(tracks@);
            proof {
                assert(e.notes@ =~= Seq::<Note>::empty());
                assert(e.channel_events@ =~= Seq::<ChannelEvent>::empty());
                assert(track_view(e) == empty_track());
            }
            tracks.push(e);
            assert(tracks_contents(tracks@) =~= prev.push(track_view(e)));
            assert(tracks_contents(tracks@) =~= c0 + Seq::new((i + 1) as nat, |j: int| empty_track()));
        }
    } else if tracks.len() > new_len {
        let extra = tracks.len() - new_len;
        let mut k: usize = 0;
        while k < extra && last_track_empty(tracks)
            invariant
                k <= extra,
                drop_empty_back(tracks_contents(tracks@), (extra - k) as int) == validated(c0, track),
            decreases extra - k,
        {
            let ghost before = tracks_contents(tracks@);
            tracks.pop();
            assert(tracks_contents(tracks@) =~= before.drop_last());
            k += 1;
        }
    } else {
        assert(c0 + Seq::new(0, |j: int| empty_track()) =~= c0);
    }
}

fn last_track_empty(tracks: &Vec<MIDITrack>) -> (r: bool)
    ensures
        r == (tracks@.len() > 0 && tracks_contents(tracks@).last().0.len() == 0 && tracks_contents(tracks@).last().1.len() == 0),
{
    let n = tracks.len();
    n > 0 && tracks[n - 1].notes.len() == 0 && tracks[n - 1].channel_events.len() == 0
}

/// Puts `track` at `track_idx`, moving the later tracks back.
pub fn insert_track_at(tracks: &mut Vec<MIDITrack>, track_idx: u16, track: MIDITrack)
    requires
        (track_idx as int) <= old(tracks)@.len(),
    ensures
        final(tracks)@ == old(tracks)@.insert(track_idx as int, track),
{
    tracks.insert(track_idx as usize, track);
}

/// Takes the track at `track` out.
pub fn remove_track_at(tracks: &mut Vec<MIDITrack>, track: u16) -> (r: MIDITrack)
    requires
        (track as int) < old(tracks)@.len(),
    ensures
        r == old(tracks)@[track as int],
        final(tracks)@ == old(tracks)@.remove(track as int),
{
    tracks.remove(track as usize)
}

/// The items of `s` on channel `ch`, in order.
pub open spec fn notes_on_channel(s: Seq<Note>, ch: int) -> Seq<Note>
    decreases s.len(),
{
    if s.len() == 0 {
        s
    } else {
        let r = notes_on_channel(s.drop_last(), ch);
        if s.last().channel == ch {
            r.push(s.last())
        } else {
            r
        }
    }
}

/// The channel events of `s` on channel `ch`, in order.
pub open spec fn events_on_channel(s: Seq<ChannelEvent>, ch: int) -> Seq<ChannelEvent>
    decreases s.len(),
{
    if s.len() == 0 {
        s
    } else {
        let r = events_on_channel(s.drop_last(), ch);
        if s.last().channel == ch {
            r.push(s.last())
        } else {
            r
        }
    }
}

/// The parts of a track, one per channel below `k` that has notes or
/// channel events, in channel order.
pub open spec fn channel_parts(notes: Seq<Note>, evs: Seq<ChannelEvent>, k: int) -> Seq<(Seq<Note>, Seq<ChannelEvent>)>
    decreases k,
{
    if k <= 0 {
        Seq::empty()
    } else {
        let r = channel_parts(notes, evs, k - 1);
        let p = (notes_on_channel(notes, k - 1), events_on_channel(evs, k - 1));
        if p.0.len() != 0 || p.1.len() != 0 {
            r.push(p)
        } else {
            r
        }
    }
}

/// Splitting track `t` by channel: the first part stays in the track (which
/// keeps its mute flag), the others become new tracks right after it.
pub open spec fn decomposed(ts: Seq<(Seq<Note>, Seq<ChannelEvent>, bool)>, t: int) -> Seq<(Seq<Note>, Seq<ChannelEvent>, bool)> {
    let parts = channel_parts(ts[t].0, ts[t].1, 16);
    if parts.len() == 0 {
        ts
    } else {
        ts.subrange(0, t) + seq![(parts[0].0, parts[0].1, ts[t].2)] + Seq::new(
            (parts.len() - 1) as nat,
            |i: int| (parts[i + 1].0, parts[i + 1].1, false),
        ) + ts.subrange(t + 1, ts.len() as int)
    }
}

proof fn lemma_on_channel_step(s: Seq<Note>, k: int, ch: int)
    requires
        0 <= k < s.len(),
    ensures
        notes_on_channel(s.subrange(0, k + 1), ch) == if s[k].channel == ch {
            notes_on_channel(s.subrange(0, k), ch).push(s[k])
        } else {
            notes_on_channel(s.subrange(0, k), ch)
        },
{
    assert(s.subrange(0, k + 1).drop_last() =~= s.subrange(0, k));
}

proof fn lemma_events_on_channel_step(s: Seq<ChannelEvent>, k: int, ch: int)
    requires
        0 <= k < s.len(),
    ensures
        events_on_channel(s.subrange(0, k + 1), ch) == if s[k].channel == ch {
            events_on_channel(s.subrange(0, k), ch).push(s[k])
        } else {
            events_on_channel(s.subrange(0, k), ch)
        },
{
    assert(s.subrange(0, k + 1).drop_last() =~= s.subrange(0, k));
}

proof fn lemma_no_parts(notes: Seq<Note>, evs: Seq<ChannelEvent>, k: int)
    requires
        channel_parts(notes, evs, k).len() == 0,
    ensures
        forall|c: int| 0 <= c < k ==> #[trigger] notes_on_channel(notes, c).len() == 0,
        forall|c: int| 0 <= c < k ==> #[trigger] events_on_channel(evs, c).len() == 0,
    decreases k,
{
    if k > 0 {
        let r = channel_parts(notes, evs, k - 1);
        if r.len() > 0 {
            let p = (notes_on_channel(notes, k - 1), events_on_channel(evs, k - 1));
            assert(channel_parts(notes, evs, k).len() >= r.len());
        }
        lemma_no_parts(notes, evs, k - 1);
    }
}

proof fn lemma_parts_len(notes: Seq<Note>, evs: Seq<ChannelEvent>, k: int)
    ensures
        channel_parts(notes, evs, k).len() <= if k < 0 { 0 } else { k },
    decreases k,
{
    if k > 0 {
        lemma_parts_len(notes, evs, k - 1);
    }
}

/// Splits track `track` into one track per channel that it uses, the first
/// in its place and the others right after it. Returns how many tracks it
/// made (0 when the track has neither notes nor channel events).
pub fn decompose_track(tracks: &mut Vec<MIDITrack>, track: u16) -> (r: usize)
    requires
        (track as int) < old(tracks)@.len(),
        forall|i: int| 0 <= i < old(tracks)@[track as int].notes@.len() ==> #[trigger] old(tracks)@[track as int].notes@[i].channel < 16,
        forall|i: int| 0 <= i < old(tracks)@[track as int].channel_events@.len() ==> #[trigger] old(tracks)@[track as int].channel_events@[i].channel < 16,
    ensures
        ({
            let c = tracks_contents(old(tracks)@);
            let t = track as int;
            let parts = channel_parts(c[t].0, c[t].1, 16);
            &&& (c[t].0.len() == 0 && c[t].1.len() == 0) ==> r == 0 && final(tracks)@ == old(tracks)@
            &&& !(c[t].0.len() == 0 && c[t].1.len() == 0) ==> r == parts.len() && tracks_contents(final(tracks)@) == decomposed(c, t)
        }),
{
    let ghost c0 = tracks_contents(tracks@);
    let t = track as usize;
    let ghost orig = tracks@[t as int];
    if tracks[t].notes.len() == 0 && tracks[t].channel_events.len() == 0 {
        return 0;
    }
    let mut notes: Vec<Note> = Vec::new();
    let mut ch_evs: Vec<ChannelEvent> = Vec::new();
    let mut base = MIDITrack::new_empty();
    std::mem::swap(&mut base, &mut tracks[t]);
    std::mem::swap(&mut notes, &mut base.notes);
    std::mem::swap(&mut ch_evs, &mut base.channel_events);
    let ghost ns = notes@;
    let ghost es = ch_evs@;
    let mut note_buckets: Vec<Vec<Note>> = Vec::new();
    let mut ev_buckets: Vec<Vec<ChannelEvent>> = Vec::new();
    for ch in 0..16usize
        invariant
            note_buckets@.len() == ch,
            ev_buckets@.len() == ch,
            forall|c: int| 0 <= c < ch ==> (#[trigger] note_buckets@[c])@.len() == 0,
            forall|c: int| 0 <= c < ch ==> (#[trigger] ev_buckets@[c])@.len() == 0,
    {
        note_buckets.push(Vec::new());
        ev_buckets.push(Vec::new());
    }
    let n_notes = notes.len();
    for k in 0..n_notes
        invariant
            n_notes == ns.len(),
            notes@ == ns,
            forall|i: int| 0 <= i < ns.len() ==> #[trigger] ns[i].channel < 16,
            note_buckets@.len() == 16,
            forall|c: int| 0 <= c < 16 ==> (#[trigger] note_buckets@[c])@ == notes_on_channel(ns.subrange(0, k as int), c),
    {
        let note = notes[k];
        let ch = note.channel as usize;
        let mut b: Vec<Note> = Vec::new();
        std::mem::swap(&mut b, &mut note_buckets[ch]);
        b.push(note);
        note_buckets.set(ch, b);
        proof {
            assert forall|c: int| 0 <= c < 16 implies (#[trigger] note_buckets@[c])@ == notes_on_channel(ns.subrange(0, k + 1), c) by {
                lemma_on_channel_step(ns, k as int, c);
            }
        }
    }
    let n_evs = ch_evs.len();
    for k in 0..n_evs
        invariant
            n_evs == es.len(),
            ch_evs@ == es,
            forall|i: int| 0 <= i < es.len() ==> #[trigger] es[i].channel < 16,
            ev_buckets@.len() == 16,
            forall|c: int| 0 <= c < 16 ==> (#[trigger] ev_buckets@[c])@ == events_on_channel(es.subrange(0, k as int), c),
    {
        let ev = ch_evs[k];
        let ch = ev.channel as usize;
        let mut b: Vec<ChannelEvent> = Vec::new();
        std::mem::swap(&mut b, &mut ev_buckets[ch]);
        b.push(ev);
        ev_buckets.set(ch, b);
        proof {
            assert forall|c: int| 0 <= c < 16 implies (#[trigger] ev_buckets@[c])@ == events_on_channel(es.subrange(0, k + 1), c) by {
                lemma_events_on_channel_step(es, k as int, c);
            }
        }
    }
    assert(ns.subrange(0, n_notes as int) =~= ns);
    assert(es.subrange(0, n_evs as int) =~= es);
    let mut parts_notes: Vec<Vec<Note>> = Vec::new();
    let mut parts_evs: Vec<Vec<ChannelEvent>> = Vec::new();
    for ch in 0..16usize
        invariant
            note_buckets@.len() == 16,
            ev_buckets@.len() == 16,
            forall|c: int| ch <= c < 16 ==> (#[trigger] note_buckets@[c])@ == notes_on_channel(ns, c),
            forall|c: int| ch <= c < 16 ==> (#[trigger] ev_buckets@[c])@ == events_on_channel(es, c),
            parts_notes@.len() == parts_evs@.len(),
            parts_notes@.len() == channel_parts(ns, es, ch as int).len(),
            forall|i: int| 0 <= i < parts_notes@.len() ==> ((#[trigger] parts_notes@[i])@, parts_evs@[i]@) == channel_parts(ns, es, ch as int)[i],
    {
        let mut bn: Vec<Note> = Vec::new();
        let mut be: Vec<ChannelEvent> = Vec::new();
        std::mem::swap(&mut bn, &mut note_buckets[ch]);
        std::mem::swap(&mut be, &mut ev_buckets[ch]);
        proof {
            assert(bn@ == notes_on_channel(ns, ch as int));
            assert(be@ == events_on_channel(es, ch as int));
        }
        if bn.len() != 0 || be.len() != 0 {
            parts_notes.push(bn);
            parts_evs.push(be);
        }
    }
    let ghost parts = channel_parts(ns, es, 16);
    proof {
        assert(ns == orig.notes@);
        assert(es == orig.channel_events@);
        assert(orig == old(tracks)@[t as int]);
        assert(ns.len() > 0 || es.len() > 0);
        if parts.len() == 0 {
            lemma_no_parts(ns, es, 16);
            if ns.len() > 0 {
                let c = ns.last().channel as int;
                assert(ns[ns.len() - 1].channel < 16);
                assert(notes_on_channel(ns, c).len() > 0);
                assert(false);
            } else {
                let c = es.last().channel as int;
                assert(es[es.len() - 1].channel < 16);
                assert(events_on_channel(es, c).len() > 0);
                assert(false);
            }
        }
        lemma_parts_len(ns, es, 16);
    }
    assert(parts.len() > 0);
    let count = parts_notes.len();
    let n0 = tracks.len();
    let ghost before = tracks@;
    let mut i: usize = count;
    while i > 1
        invariant
            1 <= i <= count,
            count == parts.len(),
            parts_notes@.len() == i,
            parts_evs@.len() == i,
            forall|j: int| 0 <= j < i ==> ((#[trigger] parts_notes@[j])@, parts_evs@[j]@) == parts[j],
            (t as int) < before.len(),
            n0 == before.len(),
            tracks@.len() == before.len() + (count - i),
            tracks_contents(tracks@) == tracks_contents(before).subrange(0, t + 1) + Seq::new(
                (count - i) as nat,
                |j: int| (parts[i + j].0, parts[i + j].1, false),
            ) + tracks_contents(before).subrange(t + 1, before.len() as int),
        decreases i,
    {
        let pn = parts_notes.pop().unwrap();
        let pe = parts_evs.pop().unwrap();
        let ghost cb = tracks_contents(tracks@);
        let ghost tr_before = tracks@;
        let nt = MIDITrack::new(pn, pe);
        assert(track_view(nt) == (parts[i - 1].0, parts[i - 1].1, false));
        tracks.insert(t + 1, nt);
        proof {
            assert(tracks@ == tr_before.insert(t + 1, nt));
            assert(tracks_contents(tracks@) =~= cb.insert(t + 1, track_view(nt)));
            assert(tracks_contents(tracks@) =~= tracks_contents(before).subrange(0, t + 1) + Seq::new(
                (count - (i - 1)) as nat,
                |j: int| (parts[i - 1 + j].0, parts[i - 1 + j].1, false),
            ) + tracks_contents(before).subrange(t + 1, before.len() as int));
        }
        i -= 1;
    }
    let first_notes = parts_notes.pop().unwrap();
    let first_evs = parts_evs.pop().unwrap();
    base.notes = first_notes;
    base.channel_events = first_evs;
    let ghost cb = tracks_contents(tracks@);
    let ghost tb = tracks@;
    tracks.set(t, base);
    proof {
        let cbf = tracks_contents(before);
        let mid = Seq::new((count - 1) as nat, |j: int| (parts[1 + j].0, parts[1 + j].1, false));
        assert(cb == cbf.subrange(0, t + 1) + mid + cbf.subrange(t + 1, before.len() as int));
        assert(tracks_contents(tracks@) =~= cb.update(t as int, track_view(base)));
        assert(mid =~= Seq::new((parts.len() - 1) as nat, |i: int| (parts[i + 1].0, parts[i + 1].1, false)));
        assert(cbf.subrange(0, t as int) =~= c0.subrange(0, t as int));
        assert(cbf.subrange(t + 1, before.len() as int) =~= c0.subrange(t + 1, c0.len() as int));
        assert(track_view(base) == (parts[0].0, parts[0].1, c0[t as int].2));
        assert(tracks_contents(tracks@) =~= decomposed(c0, t as int));
    }
    count
}

/// Swaps the contents of two tracks; when one of them does not exist, the
/// track count is first checked for the larger one.
pub fn swap_track_contents(tracks: &mut Vec<MIDITrack>, track_1: u16, track_2: u16)
    requires
        (if track_1 >= track_2 { track_1 } else { track_2 }) < u16::MAX,
        ({
            let v = if (track_1 as int) < old(tracks)@.len() && (track_2 as int) < old(tracks)@.len() {
                tracks_contents(old(tracks)@)
            } else {
                validated(tracks_contents(old(tracks)@), if track_1 >= track_2 { track_1 } else { track_2 })
            };
            (track_1 as int) < v.len() && (track_2 as int) < v.len()
        }),
    ensures
        ({
            let v = if (track_1 as int) < old(tracks)@.len() && (track_2 as int) < old(tracks)@.len() {
                tracks_contents(old(tracks)@)
            } else {
                validated(tracks_contents(old(tracks)@), if track_1 >= track_2 { track_1 } else { track_2 })
            };
            tracks_contents(final(tracks)@) == v.update(track_1 as int, v[track_2 as int]).update(track_2 as int, v[track_1 as int])
        }),
{
    let count = tracks.len();
    if track_1 as usize >= count || track_2 as usize >= count {
        let larger = if track_1 >= track_2 { track_1 } else { track_2 };
        validate_tracks(tracks, larger);
    }
    let ghost v = tracks_contents(tracks@);
    if track_1 == track_2 {
        assert(v.update(track_1 as int, v[track_2 as int]).update(track_2 as int, v[track_1 as int]) =~= v);
    } else {
        let mut a = MIDITrack::new_empty();
        let mut b = MIDITrack::new_empty();
        std::mem::swap(&mut a, &mut tracks[track_1 as usize]);
        std::mem::swap(&mut b, &mut tracks[track_2 as usize]);
        tracks.set(track_1 as usize, b);
        tracks.set(track_2 as usize, a);
        proof {
            assert(tracks_contents(tracks@) =~= v.update(track_1 as int, v[track_2 as int]).update(track_2 as int, v[track_1 as int]));
        }
    }
}

/// The tracks and current track after switching the piano roll to track
/// `new`: the track count is checked for it first.
pub open spec fn switched_to(ts: Seq<(Seq<Note>, Seq<ChannelEvent>, bool)>, new: u16) -> (Seq<(Seq<Note>, Seq<ChannelEvent>, bool)>, u16) {
    (validated(ts, new), new)
}

/// `ts` with tracks `a` and `b` swapped, the track count first checked for
/// the larger one when one of them is missing.
pub open spec fn swapped(ts: Seq<(Seq<Note>, Seq<ChannelEvent>, bool)>, a: u16, b: u16) -> Seq<(Seq<Note>, Seq<ChannelEvent>, bool)> {
    let v = if (a as int) < ts.len() && (b as int) < ts.len() {
        ts
    } else {
        validated(ts, if a >= b { a } else { b })
    };
    v.update(a as int, v[b as int]).update(b as int, v[a as int])
}

/// Swapping is possible: both tracks exist once the count is checked.
pub open spec fn swap_ok(ts: Seq<(Seq<Note>, Seq<ChannelEvent>, bool)>, a: u16, b: u16) -> bool {
    &&& (if a >= b { a } else { b }) < u16::MAX
    &&& ({
        let v = if (a as int) < ts.len() && (b as int) < ts.len() {
            ts
        } else {
            validated(ts, if a >= b { a } else { b })
        };
        (a as int) < v.len() && (b as int) < v.len()
    })
}

/// The inputs on which applying a track action runs through.
pub open spec fn track_action_ok(ts: Seq<(Seq<Note>, Seq<ChannelEvent>, bool)>, a: ActionView, curr: u16) -> bool {
    match a {
        ActionView::AddTrack(idx, q, _) => match q {
            Some(q) => q.len() > 0 && (idx as int) <= ts.len() && (idx <= curr ==> curr + 1 < u16::MAX),
            None => false,
        },
        ActionView::RemoveTrack(idx, _, _) => (idx as int) < ts.len(),
        ActionView::SwapTracks(t1, t2) => swap_ok(ts, t1, t2) && (curr == t1 ==> t2 < u16::MAX) && (curr == t2 ==> t1 < u16::MAX),
        _ => true,
    }
}

/// Applying an (already inverted) track action: a track is put back, taken
/// out (and kept in the action) or swapped, and the current track follows.
/// Returns the tracks, the action as it is left, and the current track.
pub open spec fn track_action_result(ts: Seq<(Seq<Note>, Seq<ChannelEvent>, bool)>, a: ActionView, curr: u16) -> (
    Seq<(Seq<Note>, Seq<ChannelEvent>, bool)>,
    ActionView,
    u16,
) {
    match a {
        ActionView::AddTrack(idx, q, last) => {
            let p = q->0[0];
            let t1 = ts.insert(idx as int, (p.0, p.1, false));
            if idx <= curr {
                let s = switched_to(t1, (curr + 1) as u16);
                (s.0, ActionView::AddTrack(idx, None, last), s.1)
            } else {
                (t1, ActionView::AddTrack(idx, None, last), curr)
            }
        },
        ActionView::RemoveTrack(idx, _, last) => {
            let removed = ts[idx as int];
            let t1 = ts.remove(idx as int);
            let a1 = ActionView::RemoveTrack(idx, Some(seq![(removed.0, removed.1)]), last);
            if idx < curr {
                let s = switched_to(t1, (curr - 1) as u16);
                (s.0, a1, s.1)
            } else {
                (t1, a1, curr)
            }
        },
        ActionView::SwapTracks(t1, t2) => {
            let sw = swapped(ts, t1, t2);
            if curr == t1 {
                let s = switched_to(sw, t2);
                (s.0, a, s.1)
            } else if curr == t2 {
                let s = switched_to(sw, t1);
                (s.0, a, s.1)
            } else {
                (sw, a, curr)
            }
        },
        _ => (ts, a, curr),
    }
}

/// Switches the piano roll to track `new_track`, checking the track count
/// for it first.
pub fn change_track(tracks: &mut Vec<MIDITrack>, curr_track: &mut u16, new_track: u16)
    requires
        new_track < u16::MAX,
    ensures
        (tracks_contents(final(tracks)@), *final(curr_track)) == switched_to(tracks_contents(old(tracks)@), new_track),
{
    validate_tracks(tracks, new_track);
    *curr_track = new_track;
}

/// Applies an (already inverted) track action from the undo/redo history.
pub fn apply_track_action(tracks: &mut Vec<MIDITrack>, action: &mut EditorAction, curr_track: &mut u16)
    requires
        track_action_ok(tracks_contents(old(tracks)@), old(action)@, *old(curr_track)),
    ensures
        ({
            let r = track_action_result(tracks_contents(old(tracks)@), old(action)@, *old(curr_track));
            &&& tracks_contents(final(tracks)@) == r.0
            &&& final(action)@ == r.1
            &&& *final(curr_track) == r.2
        }),
{
    let ghost c0 = tracks_contents(tracks@);
    let mut a = EditorAction::SwapTracks(0, 0);
    std::mem::swap(&mut a, action);
    let ghost av = a@;
    match a {
        EditorAction::AddTrack(track_insert, removed_tracks, last) => {
            let mut queue = removed_tracks.unwrap();
            let ghost qv = queue@;
            let (notes, evs) = queue.pop_front().unwrap();
            proof {
                assert(tracks_opt_view(Some(queue)) is Some);
            }
            let nt = MIDITrack::new(notes, evs);
            let ghost tb = tracks@;
            tracks.insert(track_insert as usize, nt);
            proof {
                assert(tracks_contents(tracks@) =~= c0.insert(track_insert as int, track_view(nt)));
            }
            *action = EditorAction::AddTrack(track_insert, None, last);
            if track_insert <= *curr_track {
                let next = *curr_track + 1;
                change_track(tracks, curr_track, next);
            }
        },
        EditorAction::RemoveTrack(track_rem_idx, _, last) => {
            let removed = tracks.remove(track_rem_idx as usize);
            proof {
                assert(tracks_contents(tracks@) =~= c0.remove(track_rem_idx as int));
            }
            let mut rem_track_queue: VecDeque<(Vec<Note>, Vec<ChannelEvent>)> = VecDeque::new();
            rem_track_queue.push_front((removed.notes, removed.channel_events));
            *action = EditorAction::RemoveTrack(track_rem_idx, Some(rem_track_queue), last);
            proof {
                assert(tracks_opt_view(Some(rem_track_queue)) =~= Some(seq![(c0[track_rem_idx as int].0, c0[track_rem_idx as int].1)]));
            }
            if track_rem_idx < *curr_track {
                let prev = *curr_track - 1;
                change_track(tracks, curr_track, prev);
            }
        },
        EditorAction::SwapTracks(track_1, track_2) => {
            swap_track_contents(tracks, track_1, track_2);
            *action = EditorAction::SwapTracks(track_1, track_2);
            let curr = *curr_track;
            if curr == track_1 {
                change_track(tracks, curr_track, track_2);
            } else if curr == track_2 {
                change_track(tracks, curr_track, track_1);
            }
        },
        other => {
            *action = other;
        },
    }
}

/// Inserts an empty track at `track` (only where a track already is) and
/// records it.
pub fn insert_track(tracks: &mut Vec<MIDITrack>, track: u16, editor_actions: &mut EditorActions)
    requires
        old(tracks)@.len() <= u16::MAX,
        old(editor_actions).wf(),
        old(editor_actions).max_actions_spec() > 0,
    ensures
        (track as int) >= old(tracks)@.len() ==> final(tracks)@ == old(tracks)@ && *final(editor_actions) == *old(editor_actions),
        (track as int) < old(tracks)@.len() ==> {
            &&& tracks_contents(final(tracks)@) == tracks_contents(old(tracks)@).insert(track as int, empty_track())
            &&& final(editor_actions).registered_from(old(editor_actions), ActionView::AddTrack(track, None, false))
        },
{
    let track_count = tracks.len() as u16;
    if track >= track_count {
        return;
    }
    let e = MIDITrack::new_empty();
    proof {
        assert(e.notes@ =~= Seq::<Note>::empty());
        assert(e.channel_events@ =~= Seq::<ChannelEvent>::empty());
    }
    let ghost c0 = tracks_contents(tracks@);
    tracks.insert(track as usize, e);
    assert(tracks_contents(tracks@) =~= c0.insert(track as int, empty_track()));
    editor_actions.register_action(EditorAction::AddTrack(track, None, false));
}

/// Removes track `track` (when it exists), records it with its contents,
/// and moves the current track down when it came after it. The flag in the
/// record tells whether the last track was removed.
pub fn remove_track(tracks: &mut Vec<MIDITrack>, track: u16, curr_track: &mut u16, editor_actions: &mut EditorActions)
    requires
        old(tracks)@.len() <= u16::MAX,
        old(editor_actions).wf(),
        old(editor_actions).max_actions_spec() > 0,
    ensures
        (track as int) >= old(tracks)@.len() ==> final(tracks)@ == old(tracks)@ && *final(editor_actions) == *old(editor_actions)
            && *final(curr_track) == *old(curr_track),
        (track as int) < old(tracks)@.len() ==> {
            let c0 = tracks_contents(old(tracks)@);
            let t1 = c0.remove(track as int);
            &&& final(editor_actions).registered_from(
                old(editor_actions),
                ActionView::RemoveTrack(track, Some(seq![(c0[track as int].0, c0[track as int].1)]), old(tracks)@.len() == 1),
            )
            &&& (*old(curr_track) > track ==> (tracks_contents(final(tracks)@), *final(curr_track)) == switched_to(t1, (*old(curr_track) - 1) as u16))
            &&& (*old(curr_track) <= track ==> tracks_contents(final(tracks)@) == t1 && *final(curr_track) == *old(curr_track))
        },
{
    let track_count = tracks.len() as u16;
    if track >= track_count {
        return;
    }
    let ghost c0 = tracks_contents(tracks@);
    let removed = tracks.remove(track as usize);
    assert(tracks_contents(tracks@) =~= c0.remove(track as int));
    let removed_first = track_count - 1 == 0;
    let mut removed_track_queue: VecDeque<(Vec<Note>, Vec<ChannelEvent>)> = VecDeque::new();
    removed_track_queue.push_back((removed.notes, removed.channel_events));
    proof {
        assert(tracks_opt_view(Some(removed_track_queue)) =~= Some(seq![(c0[track as int].0, c0[track as int].1)]));
    }
    editor_actions.register_action(EditorAction::RemoveTrack(track, Some(removed_track_queue), removed_first));
    let pr_track = *curr_track;
    if pr_track > track {
        change_track(tracks, curr_track, pr_track - 1);
    }
}

/// Swaps two tracks (see [`swap_track_contents`]), records the swap when
/// `allow_register` is set, and keeps the piano roll on the same track: when
/// it showed one of the two, it switches to the other place.
pub fn swap_tracks_and_register(
    tracks: &mut Vec<MIDITrack>,
    track_1: u16,
    track_2: u16,
    allow_register: bool,
    curr_track: &mut u16,
    editor_actions: &mut EditorActions,
)
    requires
        track_action_ok(tracks_contents(old(tracks)@), ActionView::SwapTracks(track_1, track_2), *old(curr_track)),
        old(editor_actions).wf(),
        old(editor_actions).max_actions_spec() > 0,
    ensures
        ({
            let r = track_action_result(tracks_contents(old(tracks)@), ActionView::SwapTracks(track_1, track_2), *old(curr_track));
            &&& tracks_contents(final(tracks)@) == r.0
            &&& *final(curr_track) == r.2
            &&& allow_register ==> final(editor_actions).registered_from(old(editor_actions), ActionView::SwapTracks(track_1, track_2))
            &&& !allow_register ==> *final(editor_actions) == *old(editor_actions)
        }),
{
    swap_track_contents(tracks, track_1, track_2);
    if allow_register {
        editor_actions.register_action(EditorAction::SwapTracks(track_1, track_2));
    }
    let curr = *curr_track;
    if curr == track_1 {
        change_track(tracks, curr_track, track_2);
        return;
    }
    if curr == track_2 {
        change_track(tracks, curr_track, track_1);
        return;
    }
}

/// Swaps two tracks and records the swap (see
/// [`swap_tracks_and_register`]).
pub fn swap_tracks(tracks: &mut Vec<MIDITrack>, track_1: u16, track_2: u16, curr_track: &mut u16, editor_actions: &mut EditorActions)
    requires
        track_action_ok(tracks_contents(old(tracks)@), ActionView::SwapTracks(track_1, track_2), *old(curr_track)),
        old(editor_actions).wf(),
        old(editor_actions).max_actions_spec() > 0,
    ensures
        ({
            let r = track_action_result(tracks_contents(old(tracks)@), ActionView::SwapTracks(track_1, track_2), *old(curr_track));
            &&& tracks_contents(final(tracks)@) == r.0
            &&& *final(curr_track) == r.2
            &&& final(editor_actions).registered_from(old(editor_actions), ActionView::SwapTracks(track_1, track_2))
        }),
{
    swap_tracks_and_register(tracks, track_1, track_2, true, curr_track, editor_actions);
}

/// Undoing the removal of a track puts its notes and channel events back in
/// its place (as an unmuted track); the other tracks and the current track
/// are as before, when the current track came before the removed one.
pub proof fn lemma_remove_track_then_undo(ts: Seq<(Seq<Note>, Seq<ChannelEvent>, bool)>, t: u16, curr: u16, last: bool)
    requires
        (t as int) < ts.len(),
        curr < t,
    ensures
        ({
            let removed = ActionView::RemoveTrack(t, Some(seq![(ts[t as int].0, ts[t as int].1)]), last);
            let undo = inverse_view(removed);
            let r = track_action_result(ts.remove(t as int), undo, curr);
            &&& track_action_ok(ts.remove(t as int), undo, curr)
            &&& r.0 == ts.update(t as int, (ts[t as int].0, ts[t as int].1, false))
            &&& r.2 == curr
        }),
{
    let t1 = ts.remove(t as int);
    assert(t1.insert(t as int, (ts[t as int].0, ts[t as int].1, false)) =~= ts.update(t as int, (ts[t as int].0, ts[t as int].1, false)));
}

/// Undoing a swap of two existing tracks swaps them back: the tracks and
/// the current track are as before, when the current track is neither of
/// the two.
pub proof fn lemma_swap_then_undo(ts: Seq<(Seq<Note>, Seq<ChannelEvent>, bool)>, a: u16, b: u16, curr: u16)
    requires
        (a as int) < ts.len(),
        (b as int) < ts.len(),
        (if a >= b { a } else { b }) < u16::MAX,
        curr != a,
        curr != b,
    ensures
        ({
            let swap = ActionView::SwapTracks(a, b);
            let r1 = track_action_result(ts, swap, curr);
            let undo = inverse_view(r1.1);
            let r2 = track_action_result(r1.0, undo, r1.2);
            &&& track_action_ok(ts, swap, curr)
            &&& track_action_ok(r1.0, undo, r1.2)
            &&& r2.0 == ts
            &&& r2.2 == curr
        }),
{
    let sw = swapped(ts, a, b);
    assert(swapped(sw, a, b) =~= ts);
}

/// Undoing the insertion of an empty track takes it out again: the tracks
/// are as before, and the undo keeps the taken-out track so that a redo can
/// put it back; the current track is as before when it came before the
/// inserted one.
pub proof fn lemma_insert_track_then_undo(ts: Seq<(Seq<Note>, Seq<ChannelEvent>, bool)>, t: u16, curr: u16)
    requires
        (t as int) < ts.len(),
        curr <= t,
    ensures
        ({
            let inserted = ts.insert(t as int, empty_track());
            let undo = inverse_view(ActionView::AddTrack(t, None, false));
            let r = track_action_result(inserted, undo, curr);
            &&& track_action_ok(inserted, undo, curr)
            &&& r.0 == ts
            &&& r.1 == ActionView::RemoveTrack(t, Some(seq![(Seq::<Note>::empty(), Seq::<ChannelEvent>::empty())]), false)
            &&& r.2 == curr
        }),
{
    let inserted = ts.insert(t as int, empty_track());
    assert(inserted.remove(t as int) =~= ts);
}

} // verus!
