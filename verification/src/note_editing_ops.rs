use vstd::prelude::*;
use crate::midi_types::{Note, MIDITick, SignedMIDITick};
use crate::note_editing::{NoteEditing, tracks_view};
use crate::actions::{EditorAction, EditorActions, ActionView, action_view};
use crate::note_sequence_funcs::{
    extract, extract_spec, merge_notes_and_return_ids, remove_note, extract_and_remap_ids, remap_from,
    move_all_notes_by, move_all_spec, move_fits,
};
use crate::note_queries::{get_absolute_max_tick_from_ids, selected_ends_fit, ids_in_range};
use crate::timed_seq::{merge_spec, merge_positions, usizes_as_ints};
use crate::note_action_spec::ints_as_usizes;
use crate::edit_functions::{with_length, length_diff, length_diff_fits};

verus! {

/// The notes of `track` at `ids`, in the order of `ids`.
pub open spec fn notes_at(track: Seq<Note>, ids: Seq<usize>) -> Seq<Note> {
    Seq::new(ids.len(), |i: int| track[ids[i] as int])
}

/// Every index is inside a sequence of `n` items.
pub open spec fn all_below(ids: Seq<usize>, n: int) -> bool {
    forall|i: int| 0 <= i < ids.len() ==> #[trigger] ids[i] < n
}

/// The shortest grid step for the snap ratio `num`/`den` of a whole note
/// (four quarter notes of `ppq` ticks); 1 when snapping is off.
pub open spec fn min_snap_spec(ppq: u16, snap_ratio: (u8, u16)) -> int {
    if snap_ratio.0 == 0 {
        1
    } else {
        (ppq as int * 4 * snap_ratio.0 as int) / snap_ratio.1 as int
    }
}

/// `tick` rounded to the nearest multiple of `snap` (halves away from zero).
pub open spec fn snap_spec(tick: int, snap: int) -> int {
    if snap == 1 {
        tick
    } else if tick >= 0 {
        ((tick + snap / 2) / snap) * snap
    } else {
        -(((snap / 2 - tick) / snap) * snap)
    }
}

/// The latest start among the last notes of the first `k` tracks.
pub open spec fn latest_last_start(tracks: Seq<Seq<Note>>, k: int) -> int
    decreases k,
{
    if k <= 0 {
        0
    } else {
        let m = latest_last_start(tracks, k - 1);
        let t = tracks[k - 1];
        if t.len() > 0 && t.last().start >= m {
            t.last().start as int
        } else {
            m
        }
    }
}

proof fn lemma_latest_last_start_bound(tracks: Seq<Seq<Note>>, k: int)
    ensures
        0 <= latest_last_start(tracks, k) <= u32::MAX,
    decreases k,
{
    if k > 0 {
        lemma_latest_last_start_bound(tracks, k - 1);
    }
}

impl NoteEditing {
    /// Everything but the tool flags is as in `other`.
    pub open spec fn same_but_flags(&self, other: &NoteEditing) -> bool {
        &&& self.notes@ == other.notes@
        &&& self.ghost_notes@ == other.ghost_notes@
        &&& self.selected_note_ids@ == other.selected_note_ids@
        &&& self.note_old_positions@ == other.note_old_positions@
        &&& self.note_old_lengths@ == other.note_old_lengths@
        &&& self.notes_clipboard@ == other.notes_clipboard@
        &&& self.ppq == other.ppq
        &&& self.latest_note_start == other.latest_note_start
        &&& self.selection_range == other.selection_range
        &&& self.draw_select_box == other.draw_select_box
        &&& self.curr_track == other.curr_track
    }

    /// The track being edited.
    pub fn get_current_track(&self) -> (r: u16)
        ensures
            r == self.curr_track,
    {
        self.curr_track
    }

    /// Whether the selection box is drawn.
    pub fn get_can_draw_selection_box(&self) -> (r: bool)
        ensures
            r == self.draw_select_box,
    {
        self.draw_select_box
    }

    /// Sets or clears the bits of `flag`.
    pub fn set_flag(&mut self, flag: u16, value: bool)
        ensures
            final(self).flags == (if value { old(self).flags | flag } else { old(self).flags & !flag }),
            final(self).same_but_flags(old(self)),
    {
        let v: i16 = if value { 1 } else { 0 };
        let mask: u16 = (-v) as u16;
        let f = self.flags;
        proof {
            if value {
                assert(mask == 0xffffu16) by (bit_vector)
                    requires
                        mask == (-1i16) as u16,
                ;
                assert((f & !flag) | (0xffffu16 & flag) == f | flag) by (bit_vector);
            } else {
                assert(mask == 0u16);
                assert((f & !flag) | (0u16 & flag) == f & !flag) by (bit_vector);
            }
        }
        self.flags = (f & !flag) | (mask & flag);
    }

    /// Whether any bit of `flag` is set.
    pub fn get_flag(&self, flag: u16) -> (r: bool)
        ensures
            r == (self.flags & flag != 0),
    {
        self.flags & flag != 0
    }

    /// Sets the bits of `flag`.
    pub fn enable_flag(&mut self, flag: u16)
        ensures
            final(self).flags == old(self).flags | flag,
            final(self).same_but_flags(old(self)),
    {
        self.set_flag(flag, true);
    }

    /// Clears the bits of `flag`.
    pub fn disable_flag(&mut self, flag: u16)
        ensures
            final(self).flags == old(self).flags & !flag,
            final(self).same_but_flags(old(self)),
    {
        self.flags = self.flags & !flag;
    }

    /// The shortest grid step for the editor's snap ratio.
    pub fn get_min_snap_tick_length(&self, snap_ratio: (u8, u16)) -> (r: MIDITick)
        requires
            snap_ratio.0 != 0 ==> snap_ratio.1 != 0,
        ensures
            r == min_snap_spec(self.ppq, snap_ratio),
    {
        if snap_ratio.0 == 0 {
            return 1;
        }
        let quarter: u32 = (self.ppq as u32) * 4;
        assert(quarter * (snap_ratio.0 as u32) <= 262140 * 255) by (nonlinear_arith)
            requires
                quarter <= 262140,
                snap_ratio.0 <= 255,
        ;
        let whole: u32 = quarter * (snap_ratio.0 as u32);
        whole / (snap_ratio.1 as u32)
    }

    /// `tick` snapped to the editor's grid.
    pub fn snap_tick(&self, tick: SignedMIDITick, snap_ratio: (u8, u16)) -> (r: SignedMIDITick)
        requires
            snap_ratio.0 != 0 ==> snap_ratio.1 != 0,
            min_snap_spec(self.ppq, snap_ratio) != 0,
            i32::MIN <= tick - min_snap_spec(self.ppq, snap_ratio) / 2 && tick + min_snap_spec(self.ppq, snap_ratio) / 2 <= i32::MAX,
            i32::MIN <= snap_spec(tick as int, min_snap_spec(self.ppq, snap_ratio)) <= i32::MAX,
        ensures
            r == snap_spec(tick as int, min_snap_spec(self.ppq, snap_ratio)),
    {
        let snap_u = self.get_min_snap_tick_length(snap_ratio);
        if snap_u == 1 {
            return tick;
        }
        assert(snap_u <= 65535 * 4 * 255) by (nonlinear_arith)
            requires
                snap_ratio.0 != 0 ==> snap_u == (self.ppq as int * 4 * snap_ratio.0 as int) / snap_ratio.1 as int,
                snap_ratio.0 != 0 ==> snap_ratio.1 >= 1,
                snap_ratio.0 == 0 ==> snap_u == 1,
                self.ppq <= 65535,
                snap_ratio.0 <= 255,
        ;
        let snap: i32 = snap_u as i32;
        let half = snap / 2;
        if tick >= 0 {
            let q = (tick + half) / snap;
            assert(q * snap <= tick + half) by (nonlinear_arith)
                requires
                    q == (tick + half) / (snap as int),
                    snap > 0,
                    tick + half >= 0,
            ;
            q * snap
        } else {
            let dist: i64 = (half as i64) - (tick as i64);
            let q: i64 = dist / (snap as i64);
            assert(q * snap <= dist) by (nonlinear_arith)
                requires
                    q == (dist as int) / (snap as int),
                    snap > 0,
                    dist >= 0,
            ;
            assert(q >= 0) by (nonlinear_arith)
                requires
                    q == (dist as int) / (snap as int),
                    snap > 0,
                    dist >= 0,
            ;
            (-(q * (snap as i64))) as i32
        }
    }

    /// Moves the end of the editable area to 38400 ticks after the latest
    /// start of a track's last note.
    pub fn update_latest_note_start(&mut self)
        requires
            latest_last_start(tracks_view(old(self).notes@), old(self).notes@.len() as int) + 38400 <= u32::MAX,
        ensures
            final(self).latest_note_start == latest_last_start(tracks_view(old(self).notes@), old(self).notes@.len() as int) + 38400,
            final(self).notes@ == old(self).notes@,
            final(self).ghost_notes@ == old(self).ghost_notes@,
            final(self).selected_note_ids@ == old(self).selected_note_ids@,
            final(self).note_old_positions@ == old(self).note_old_positions@,
            final(self).note_old_lengths@ == old(self).note_old_lengths@,
            final(self).notes_clipboard@ == old(self).notes_clipboard@,
            final(self).ppq == old(self).ppq,
            final(self).selection_range == old(self).selection_range,
            final(self).draw_select_box == old(self).draw_select_box,
            final(self).flags == old(self).flags,
            final(self).curr_track == old(self).curr_track,
    {
        let ghost tv = tracks_view(self.notes@);
        let mut latest_start: MIDITick = 0;
        let n = self.notes.len();
        for k in 0..n
            invariant
                n == self.notes@.len(),
                tv == tracks_view(self.notes@),
                latest_start == latest_last_start(tv, k as int),
        {
            let track = &self.notes[k];
            if track.len() > 0 {
                let last_start = track[track.len() - 1].start;
                if last_start >= latest_start {
                    latest_start = last_start;
                }
            }
            assert(tv[k as int] == self.notes@[k as int]@);
        }
        self.latest_note_start = latest_start + 38400;
    }

    /// Copies of the notes of `track` at `ids`.
    pub fn clone_notes(&self, track: u16, ids: &[usize]) -> (r: Vec<Note>)
        requires
            (track as int) < self.notes@.len(),
            all_below(ids@, self.notes@[track as int]@.len() as int),
        ensures
            r@ == notes_at(self.notes@[track as int]@, ids@),
    {
        let notes = &self.notes[track as usize];
        let mut copied: Vec<Note> = Vec::with_capacity(ids.len());
        let n = ids.len();
        for i in 0..n
            invariant
                n == ids@.len(),
                *notes == self.notes@[track as int],
                all_below(ids@, notes@.len() as int),
                copied@ == notes_at(notes@, ids@.subrange(0, i as int)),
        {
            assert(ids@[i as int] < notes@.len());
            copied.push(notes[ids[i]]);
            assert(copied@ =~= notes_at(notes@, ids@.subrange(0, i + 1)));
        }
        assert(ids@.subrange(0, n as int) =~= ids@);
        copied
    }

    /// The (start, key) of each note of the current track at `ids`.
    pub fn get_note_positions(&self, ids: &Vec<usize>) -> (r: Vec<(MIDITick, u8)>)
        requires
            (self.curr_track as int) < self.notes@.len(),
            all_below(ids@, self.notes@[self.curr_track as int]@.len() as int),
        ensures
            r@.len() == ids@.len(),
            forall|i: int| 0 <= i < ids@.len() ==> #[trigger] r@[i] == (
                self.notes@[self.curr_track as int]@[ids@[i] as int].start,
                self.notes@[self.curr_track as int]@[ids@[i] as int].key,
            ),
    {
        let notes = &self.notes[self.curr_track as usize];
        let mut r: Vec<(MIDITick, u8)> = Vec::with_capacity(ids.len());
        let n = ids.len();
        for i in 0..n
            invariant
                n == ids@.len(),
                *notes == self.notes@[self.curr_track as int],
                all_below(ids@, notes@.len() as int),
                r@.len() == i,
                forall|j: int| 0 <= j < i ==> #[trigger] r@[j] == (notes@[ids@[j] as int].start, notes@[ids@[j] as int].key),
        {
            assert(ids@[i as int] < notes@.len());
            let note = notes[ids[i]];
            r.push((note.start, note.key));
        }
        r
    }

    /// Each id of `ids` with the length of that note of the current track.
    pub fn get_note_lengths(&self, ids: &Vec<usize>) -> (r: Vec<(usize, MIDITick)>)
        requires
            (self.curr_track as int) < self.notes@.len(),
            all_below(ids@, self.notes@[self.curr_track as int]@.len() as int),
        ensures
            r@.len() == ids@.len(),
            forall|i: int| 0 <= i < ids@.len() ==> #[trigger] r@[i] == (
                ids@[i],
                self.notes@[self.curr_track as int]@[ids@[i] as int].length,
            ),
    {
        let notes = &self.notes[self.curr_track as usize];
        let mut r: Vec<(usize, MIDITick)> = Vec::with_capacity(ids.len());
        let n = ids.len();
        for i in 0..n
            invariant
                n == ids@.len(),
                *notes == self.notes@[self.curr_track as int],
                all_below(ids@, notes@.len() as int),
                r@.len() == i,
                forall|j: int| 0 <= j < i ==> #[trigger] r@[j] == (ids@[j], notes@[ids@[j] as int].length),
        {
            assert(ids@[i as int] < notes@.len());
            let id = ids[i];
            r.push((id, notes[id].length));
        }
        r
    }
}

/// The length a note gets when its old length is moved by `delta` (read as
/// a signed tick); never below 1.
pub open spec fn offset_length(old_length: MIDITick, delta: SignedMIDITick) -> MIDITick {
    let l = (old_length as i32) as int + delta as int;
    if l < 1 {
        1
    } else {
        l as MIDITick
    }
}

/// The first `k` remembered lengths moved by `delta` and written back to
/// their notes, one after the other.
pub open spec fn lengths_offset(track: Seq<Note>, old_lengths: Seq<(usize, MIDITick)>, delta: SignedMIDITick, k: int) -> Seq<Note>
    decreases k,
{
    if k <= 0 {
        track
    } else {
        let t = lengths_offset(track, old_lengths, delta, k - 1);
        let (id, l) = old_lengths[k - 1];
        t.update(id as int, with_length(t[id as int], offset_length(l, delta)))
    }
}

/// A ghost note placed at `start` and `key` with the toolbar's channel (as
/// shown, counted from 1), gate and velocity.
pub open spec fn toolbar_note(start: MIDITick, key: u8, channel_shown: u8, gate: MIDITick, velocity: u8) -> Note {
    Note { start, length: gate, channel: (channel_shown - 1) as u8, key, velocity }
}

/// A ghost note moved from its remembered position by `d`; the start stays
/// at 0 or later and the key within 0..=127.
pub open spec fn offset_ghost(n: Note, old_pos: (MIDITick, u8), d: (SignedMIDITick, i16)) -> Note {
    let s = (old_pos.0 as i32) as int + d.0 as int;
    let k = old_pos.1 as int + d.1 as int;
    Note {
        start: if s < 0 { 0 } else { s as MIDITick },
        length: n.length,
        channel: n.channel,
        key: if k < 0 { 0 } else if k > 127 { 127 } else { k as u8 },
        velocity: n.velocity,
    }
}

/// How far a ghost note is from its remembered position.
pub open spec fn ghost_delta(n: Note, old_pos: (MIDITick, u8)) -> (SignedMIDITick, i16) {
    (((n.start as i32) as int - (old_pos.0 as i32) as int) as i32, (n.key as int - old_pos.1 as int) as i16)
}

impl NoteEditing {
    /// The editor's settings, which these operations leave alone.
    pub open spec fn same_settings(&self, other: &NoteEditing) -> bool {
        &&& self.ppq == other.ppq
        &&& self.latest_note_start == other.latest_note_start
        &&& self.selection_range == other.selection_range
        &&& self.draw_select_box == other.draw_select_box
        &&& self.flags == other.flags
        &&& self.curr_track == other.curr_track
    }

    /// Sets each remembered note length, moved by `length_delta`, on its
    /// note of the current track.
    pub fn offset_note_lengths(&mut self, length_delta: SignedMIDITick)
        requires
            (old(self).curr_track as int) < old(self).notes@.len(),
            old(self).note_old_lengths@.len() > 0,
            forall|i: int| 0 <= i < old(self).note_old_lengths@.len() ==> {
                let (id, l) = #[trigger] old(self).note_old_lengths@[i];
                &&& (id as int) < old(self).notes@[old(self).curr_track as int]@.len()
                &&& i32::MIN <= (l as i32) as int + length_delta as int <= i32::MAX
            },
        ensures
            tracks_view(final(self).notes@) == tracks_view(old(self).notes@).update(
                old(self).curr_track as int,
                lengths_offset(
                    old(self).notes@[old(self).curr_track as int]@,
                    old(self).note_old_lengths@,
                    length_delta,
                    old(self).note_old_lengths@.len() as int,
                ),
            ),
            final(self).selected_note_ids@ == old(self).selected_note_ids@,
            final(self).ghost_notes@ == old(self).ghost_notes@,
            final(self).note_old_lengths@ == old(self).note_old_lengths@,
            final(self).note_old_positions@ == old(self).note_old_positions@,
            final(self).notes_clipboard@ == old(self).notes_clipboard@,
            final(self).same_settings(old(self)),
    {
        let ct = self.curr_track as usize;
        let mut track = self.take_notes_in_track(self.curr_track);
        let ghost t0 = track@;
        let n = self.note_old_lengths.len();
        for k in 0..n
            invariant
                n == self.note_old_lengths@.len(),
                track@.len() == t0.len(),
                track@ == lengths_offset(t0, self.note_old_lengths@, length_delta, k as int),
                forall|i: int| 0 <= i < self.note_old_lengths@.len() ==> {
                    let (id, l) = #[trigger] self.note_old_lengths@[i];
                    &&& (id as int) < t0.len()
                    &&& i32::MIN <= (l as i32) as int + length_delta as int <= i32::MAX
                },
        {
            let (note_id, old_length) = self.note_old_lengths[k];
            assert(self.note_old_lengths@[k as int] == (note_id, old_length));
            let new_length: SignedMIDITick = (#[verifier::truncate] (old_length as SignedMIDITick)) + length_delta;
            let note = track[note_id];
            let l: MIDITick = if new_length < 1 { 1 } else { new_length as MIDITick };
            track.set(note_id, Note { start: note.start, length: l, channel: note.channel, key: note.key, velocity: note.velocity });
        }
        self.set_notes_in_track(self.curr_track, track);
    }

    /// Records, as one length change, how far the notes with remembered
    /// lengths now are from them, and forgets the remembered lengths.
    pub fn apply_note_length_change(&mut self, editor_actions: &mut EditorActions)
        requires
            (old(self).curr_track as int) < old(self).notes@.len(),
            forall|i: int| 0 <= i < old(self).note_old_lengths@.len() ==> {
                let (id, l) = #[trigger] old(self).note_old_lengths@[i];
                let t = old(self).notes@[old(self).curr_track as int]@;
                &&& (id as int) < t.len()
                &&& length_diff_fits(t[id as int].length, l)
            },
            old(editor_actions).wf(),
            old(editor_actions).max_actions_spec() > 0,
        ensures
            final(self).note_old_lengths@.len() == 0,
            final(self).notes@ == old(self).notes@,
            final(self).selected_note_ids@ == old(self).selected_note_ids@,
            final(self).ghost_notes@ == old(self).ghost_notes@,
            final(self).note_old_positions@ == old(self).note_old_positions@,
            final(self).notes_clipboard@ == old(self).notes_clipboard@,
            final(self).same_settings(old(self)),
            final(editor_actions).registered_from(
                old(editor_actions),
                ActionView::LengthChange(
                    Seq::new(old(self).note_old_lengths@.len(), |i: int| old(self).note_old_lengths@[i].0),
                    Seq::new(
                        old(self).note_old_lengths@.len(),
                        |i: int| length_diff(
                            old(self).notes@[old(self).curr_track as int]@[old(self).note_old_lengths@[i].0 as int].length,
                            old(self).note_old_lengths@[i].1,
                        ),
                    ),
                    old(self).curr_track,
                ),
            ),
    {
        let ct = self.curr_track;
        let mut old_lengths: Vec<(usize, MIDITick)> = Vec::new();
        std::mem::swap(&mut old_lengths, &mut self.note_old_lengths);
        let notes = &self.notes[ct as usize];
        let mut note_ids: Vec<usize> = Vec::new();
        let mut length_deltas: Vec<SignedMIDITick> = Vec::new();
        let n = old_lengths.len();
        for k in 0..n
            invariant
                n == old_lengths@.len(),
                *notes == old(self).notes@[ct as int],
                forall|i: int| 0 <= i < old_lengths@.len() ==> {
                    let (id, l) = #[trigger] old_lengths@[i];
                    &&& (id as int) < notes@.len()
                    &&& length_diff_fits(notes@[id as int].length, l)
                },
                note_ids@ == Seq::new(k as nat, |i: int| old_lengths@[i].0),
                length_deltas@ == Seq::new(k as nat, |i: int| length_diff(notes@[old_lengths@[i].0 as int].length, old_lengths@[i].1)),
        {
            let (id, length) = old_lengths[k];
            assert(old_lengths@[k as int] == (id, length));
            let cur = notes[id].length;
            note_ids.push(id);
            length_deltas.push((#[verifier::truncate] (cur as SignedMIDITick)) - (#[verifier::truncate] (length as SignedMIDITick)));
            assert(note_ids@ =~= Seq::new((k + 1) as nat, |i: int| old_lengths@[i].0));
            assert(length_deltas@ =~= Seq::new((k + 1) as nat, |i: int| length_diff(notes@[old_lengths@[i].0 as int].length, old_lengths@[i].1)));
        }
        editor_actions.register_action(EditorAction::LengthChange(note_ids, length_deltas, ct));
    }

    /// Takes the selected notes of the current track out as ghost notes and
    /// clears the selection.
    pub fn selected_notes_to_ghost_notes(&mut self)
        requires
            (old(self).curr_track as int) < old(self).notes@.len(),
        ensures
            final(self).ghost_notes@ == extract_spec(old(self).notes@[old(self).curr_track as int]@, old(self).selected_note_ids@).0,
            tracks_view(final(self).notes@) == tracks_view(old(self).notes@).update(
                old(self).curr_track as int,
                extract_spec(old(self).notes@[old(self).curr_track as int]@, old(self).selected_note_ids@).1,
            ),
            final(self).selected_note_ids@.len() == 0,
            final(self).note_old_lengths@ == old(self).note_old_lengths@,
            final(self).note_old_positions@ == old(self).note_old_positions@,
            final(self).notes_clipboard@ == old(self).notes_clipboard@,
            final(self).same_settings(old(self)),
    {
        let ct = self.curr_track;
        let old_notes = self.take_notes_in_track(ct);
        let (tmp_ghosts, new_notes) = extract(old_notes, self.selected_note_ids.as_slice());
        self.set_notes_in_track(ct, new_notes);
        self.selected_note_ids = Vec::new();
        self.ghost_notes = tmp_ghosts;
    }

    /// Takes the note at `id` out of the current track and makes it the
    /// first ghost note.
    pub fn note_id_as_first_ghost_note(&mut self, id: usize)
        requires
            (old(self).curr_track as int) < old(self).notes@.len(),
            (id as int) < old(self).notes@[old(self).curr_track as int]@.len(),
        ensures
            ({
                let t = old(self).notes@[old(self).curr_track as int]@;
                &&& tracks_view(final(self).notes@) == tracks_view(old(self).notes@).update(
                    old(self).curr_track as int,
                    t.remove(id as int),
                )
                &&& final(self).ghost_notes@ == (if old(self).ghost_notes@.len() == 0 {
                    seq![t[id as int]]
                } else {
                    old(self).ghost_notes@.update(0, t[id as int])
                })
            }),
            final(self).selected_note_ids@ == old(self).selected_note_ids@,
            final(self).note_old_lengths@ == old(self).note_old_lengths@,
            final(self).note_old_positions@ == old(self).note_old_positions@,
            final(self).notes_clipboard@ == old(self).notes_clipboard@,
            final(self).same_settings(old(self)),
    {
        let ct = self.curr_track;
        let mut track = self.take_notes_in_track(ct);
        let note = remove_note(&mut track, id);
        self.set_notes_in_track(ct, track);
        if self.ghost_notes.len() == 0 {
            self.ghost_notes.push(note);
            assert(self.ghost_notes@ =~= seq![note]);
        } else {
            self.ghost_notes.set(0, note);
        }
    }

    /// Places the first ghost note at `start` and `key` with the toolbar's
    /// channel (as shown, counted from 1), gate and velocity, creating it if
    /// there is none.
    pub fn set_first_ghost_note_pos(&mut self, start: MIDITick, key: u8, channel_shown: u8, gate: MIDITick, velocity: u8)
        requires
            channel_shown >= 1,
        ensures
            final(self).ghost_notes@ == (if old(self).ghost_notes@.len() == 0 {
                seq![toolbar_note(start, key, channel_shown, gate, velocity)]
            } else {
                old(self).ghost_notes@.update(0, toolbar_note(start, key, channel_shown, gate, velocity))
            }),
            final(self).notes@ == old(self).notes@,
            final(self).selected_note_ids@ == old(self).selected_note_ids@,
            final(self).note_old_lengths@ == old(self).note_old_lengths@,
            final(self).note_old_positions@ == old(self).note_old_positions@,
            final(self).notes_clipboard@ == old(self).notes_clipboard@,
            final(self).same_settings(old(self)),
    {
        let note = Note { start, length: gate, channel: channel_shown - 1, key, velocity };
        if self.ghost_notes.len() == 0 {
            self.ghost_notes.push(note);
            assert(self.ghost_notes@ =~= seq![note]);
        } else {
            self.ghost_notes.set(0, note);
        }
    }

    /// Moves each ghost note from its remembered position by `pos_delta`.
    pub fn offset_ghost_notes(&mut self, pos_delta: (SignedMIDITick, i16))
        requires
            old(self).note_old_positions@.len() > 0,
            old(self).ghost_notes@.len() == old(self).note_old_positions@.len(),
            forall|i: int| 0 <= i < old(self).note_old_positions@.len() ==> {
                let p = #[trigger] old(self).note_old_positions@[i];
                &&& i32::MIN <= (p.0 as i32) as int + pos_delta.0 as int <= i32::MAX
                &&& p.1 as int + pos_delta.1 as int <= i16::MAX
            },
        ensures
            final(self).ghost_notes@.len() == old(self).ghost_notes@.len(),
            forall|i: int| 0 <= i < old(self).ghost_notes@.len() ==> #[trigger] final(self).ghost_notes@[i] == offset_ghost(
                old(self).ghost_notes@[i],
                old(self).note_old_positions@[i],
                pos_delta,
            ),
            final(self).notes@ == old(self).notes@,
            final(self).selected_note_ids@ == old(self).selected_note_ids@,
            final(self).note_old_lengths@ == old(self).note_old_lengths@,
            final(self).note_old_positions@ == old(self).note_old_positions@,
            final(self).notes_clipboard@ == old(self).notes_clipboard@,
            final(self).same_settings(old(self)),
    {
        let n = self.note_old_positions.len();
        let ghost g0 = self.ghost_notes@;
        for i in 0..n
            invariant
                n == self.note_old_positions@.len(),
                self.ghost_notes@.len() == n,
                g0.len() == n,
                self.note_old_positions@ == old(self).note_old_positions@,
                self.notes@ == old(self).notes@,
                self.selected_note_ids@ == old(self).selected_note_ids@,
                self.note_old_lengths@ == old(self).note_old_lengths@,
                self.notes_clipboard@ == old(self).notes_clipboard@,
                self.same_settings(old(self)),
                forall|i: int| 0 <= i < self.note_old_positions@.len() ==> {
                    let p = #[trigger] self.note_old_positions@[i];
                    &&& i32::MIN <= (p.0 as i32) as int + pos_delta.0 as int <= i32::MAX
                    &&& p.1 as int + pos_delta.1 as int <= i16::MAX
                },
                forall|j: int| 0 <= j < i ==> #[trigger] self.ghost_notes@[j] == offset_ghost(g0[j], self.note_old_positions@[j], pos_delta),
                forall|j: int| i <= j < n ==> #[trigger] self.ghost_notes@[j] == g0[j],
        {
            let old_pos = self.note_old_positions[i];
            assert(self.note_old_positions@[i as int] == old_pos);
            let ghost_start: SignedMIDITick = (#[verifier::truncate] (old_pos.0 as SignedMIDITick)) + pos_delta.0;
            let ghost_key: i16 = old_pos.1 as i16 + pos_delta.1;
            let gn = self.ghost_notes[i];
            let new_start: MIDITick = if ghost_start < 0 { 0 } else { ghost_start as MIDITick };
            let new_key: u8 = if ghost_key < 0 { 0 } else if ghost_key > 127 { 127 } else { ghost_key as u8 };
            self.ghost_notes.set(i, Note { start: new_start, length: gn.length, channel: gn.channel, key: new_key, velocity: gn.velocity });
        }
    }

    /// Hands out the ghost notes, leaving none.
    pub fn ghost_notes_into_notes(&mut self) -> (r: Vec<Note>)
        ensures
            r@ == old(self).ghost_notes@,
            final(self).ghost_notes@.len() == 0,
            final(self).notes@ == old(self).notes@,
            final(self).selected_note_ids@ == old(self).selected_note_ids@,
            final(self).note_old_lengths@ == old(self).note_old_lengths@,
            final(self).note_old_positions@ == old(self).note_old_positions@,
            final(self).notes_clipboard@ == old(self).notes_clipboard@,
            final(self).same_settings(old(self)),
    {
        let mut taken: Vec<Note> = Vec::new();
        std::mem::swap(&mut taken, &mut self.ghost_notes);
        taken
    }

    /// How far each ghost note is from its remembered position.
    pub fn get_ghost_notes_pos_delta(&self) -> (r: Vec<(SignedMIDITick, i16)>)
        requires
            self.note_old_positions@.len() >= self.ghost_notes@.len(),
            forall|i: int| 0 <= i < self.ghost_notes@.len() ==> i32::MIN <= (#[trigger] self.ghost_notes@[i].start as i32) as int
                - (self.note_old_positions@[i].0 as i32) as int <= i32::MAX,
        ensures
            r@.len() == self.ghost_notes@.len(),
            forall|i: int| 0 <= i < r@.len() ==> #[trigger] r@[i] == ghost_delta(self.ghost_notes@[i], self.note_old_positions@[i]),
    {
        let mut r: Vec<(SignedMIDITick, i16)> = Vec::with_capacity(self.ghost_notes.len());
        let n = self.ghost_notes.len();
        for i in 0..n
            invariant
                n == self.ghost_notes@.len(),
                self.note_old_positions@.len() >= n,
                forall|i: int| 0 <= i < self.ghost_notes@.len() ==> i32::MIN <= (#[trigger] self.ghost_notes@[i].start as i32) as int
                    - (self.note_old_positions@[i].0 as i32) as int <= i32::MAX,
                r@.len() == i,
                forall|j: int| 0 <= j < i ==> #[trigger] r@[j] == ghost_delta(self.ghost_notes@[j], self.note_old_positions@[j]),
        {
            let note = self.ghost_notes[i];
            let old_pos = self.note_old_positions[i];
            assert(i32::MIN <= (self.ghost_notes@[i as int].start as i32) as int - (self.note_old_positions@[i as int].0 as i32) as int);
            r.push((
                (#[verifier::truncate] (note.start as SignedMIDITick)) - (#[verifier::truncate] (old_pos.0 as SignedMIDITick)),
                note.key as i16 - old_pos.1 as i16,
            ));
        }
        r
    }

    /// Takes the notes out of the current track, leaving it empty.
    pub fn take_notes_curr_track(&mut self) -> (r: Vec<Note>)
        requires
            (old(self).curr_track as int) < old(self).notes@.len(),
        ensures
            r@ == old(self).notes@[old(self).curr_track as int]@,
            tracks_view(final(self).notes@) == tracks_view(old(self).notes@).update(old(self).curr_track as int, Seq::empty()),
            final(self).notes@.len() == old(self).notes@.len(),
            final(self).selected_note_ids@ == old(self).selected_note_ids@,
            final(self).same_besides_edit_state(old(self)),
    {
        self.take_notes_in_track(self.curr_track)
    }
}

/// The latest end among the notes at the first `k` of `ids` (at least 0).
pub open spec fn max_end_at(notes: Seq<Note>, ids: Seq<usize>, k: int) -> int
    decreases k,
{
    if k <= 0 {
        0
    } else {
        let m = max_end_at(notes, ids, k - 1);
        let e = notes[ids[k - 1] as int].end_spec();
        if e >= m {
            e
        } else {
            m
        }
    }
}

proof fn lemma_max_end_at(notes: Seq<Note>, ids: Seq<usize>, k: int)
    requires
        0 <= k <= ids.len(),
    ensures
        forall|j: int| 0 <= j < k ==> #[trigger] notes[ids[j] as int].end_spec() <= max_end_at(notes, ids, k),
        max_end_at(notes, ids, k) == 0 || exists|j: int|
            0 <= j < k && #[trigger] notes[ids[j] as int].end_spec() == max_end_at(notes, ids, k),
        max_end_at(notes, ids, k) >= 0,
    decreases k,
{
    if k > 0 {
        lemma_max_end_at(notes, ids, k - 1);
        let m = max_end_at(notes, ids, k - 1);
        if m != 0 && notes[ids[k - 1] as int].end_spec() < m {
            let j = choose|j: int| 0 <= j < k - 1 && #[trigger] notes[ids[j] as int].end_spec() == m;
            assert(notes[ids[j] as int].end_spec() == max_end_at(notes, ids, k));
        }
    }
}

proof fn lemma_max_end_unique(notes: Seq<Note>, ids: Seq<usize>, m: int)
    requires
        forall|j: int| 0 <= j < ids.len() ==> #[trigger] notes[ids[j] as int].end_spec() <= m,
        m == 0 || exists|j: int| 0 <= j < ids.len() && #[trigger] notes[ids[j] as int].end_spec() == m,
    ensures
        m == max_end_at(notes, ids, ids.len() as int),
{
    lemma_max_end_at(notes, ids, ids.len() as int);
    let mx = max_end_at(notes, ids, ids.len() as int);
    if mx != 0 {
        let j = choose|j: int| 0 <= j < ids.len() && #[trigger] notes[ids[j] as int].end_spec() == mx;
        assert(notes[ids[j] as int].end_spec() <= m);
    }
    if m != 0 {
        let j = choose|j: int| 0 <= j < ids.len() && #[trigger] notes[ids[j] as int].end_spec() == m;
        assert(notes[ids[j] as int].end_spec() <= mx);
    }
}

/// The clipboard's notes shifted so that the first starts at `tick_pos`.
pub open spec fn pasted_at(clip: Seq<Note>, tick_pos: MIDITick) -> Seq<Note> {
    Seq::new(
        clip.len(),
        |i: int| Note {
            start: (clip[i].start - clip[0].start + tick_pos) as MIDITick,
            length: clip[i].length,
            channel: clip[i].channel,
            key: clip[i].key,
            velocity: clip[i].velocity,
        },
    )
}

fn copy_note_vec(notes: &Vec<Note>) -> (r: Vec<Note>)
    ensures
        r@ == notes@,
{
    let mut r: Vec<Note> = Vec::with_capacity(notes.len());
    let n = notes.len();
    for i in 0..n
        invariant
            n == notes@.len(),
            r@ == notes@.subrange(0, i as int),
    {
        r.push(notes[i]);
        assert(r@ =~= notes@.subrange(0, i + 1));
    }
    assert(r@ =~= notes@);
    r
}

fn copy_id_vec(ids: &Vec<usize>) -> (r: Vec<usize>)
    ensures
        r@ == ids@,
{
    let mut r: Vec<usize> = Vec::with_capacity(ids.len());
    let n = ids.len();
    for i in 0..n
        invariant
            n == ids@.len(),
            r@ == ids@.subrange(0, i as int),
    {
        r.push(ids[i]);
        assert(r@ =~= ids@.subrange(0, i + 1));
    }
    assert(r@ =~= ids@);
    r
}

impl NoteEditing {
    /// Merges the ghost notes into the notes of the current track and puts
    /// the result into `track` (the current track is left empty when `track`
    /// is another one). Returns where the ghost notes went.
    pub fn merge_ghost_notes(&mut self, track: u16) -> (r: Vec<usize>)
        requires
            (old(self).curr_track as int) < old(self).notes@.len(),
            (track as int) < old(self).notes@.len(),
            old(self).notes@[old(self).curr_track as int]@.len() + old(self).ghost_notes@.len() <= usize::MAX,
        ensures
            ({
                let cur = old(self).notes@[old(self).curr_track as int]@;
                &&& tracks_view(final(self).notes@) == tracks_view(old(self).notes@).update(old(self).curr_track as int, Seq::empty()).update(
                    track as int,
                    merge_spec(cur, old(self).ghost_notes@),
                )
                &&& usizes_as_ints(r@) == merge_positions(cur, old(self).ghost_notes@)
            }),
            final(self).ghost_notes@.len() == 0,
            final(self).notes@.len() == old(self).notes@.len(),
            final(self).selected_note_ids@ == old(self).selected_note_ids@,
            final(self).note_old_lengths@ == old(self).note_old_lengths@,
            final(self).note_old_positions@ == old(self).note_old_positions@,
            final(self).notes_clipboard@ == old(self).notes_clipboard@,
            final(self).same_settings(old(self)),
    {
        let ghost_notes = self.ghost_notes_into_notes();
        let curr_notes_track = self.take_notes_curr_track();
        let (merged, ids) = merge_notes_and_return_ids(curr_notes_track, ghost_notes);
        self.set_notes_in_track(track, merged);
        ids
    }

    /// Merges the ghost notes into the current track and records them as
    /// placed notes.
    pub fn apply_ghost_place_notes(&mut self, editor_actions: &mut EditorActions)
        requires
            (old(self).curr_track as int) < old(self).notes@.len(),
            old(self).notes@[old(self).curr_track as int]@.len() + old(self).ghost_notes@.len() <= usize::MAX,
            old(editor_actions).wf(),
            old(editor_actions).max_actions_spec() > 0,
        ensures
            ({
                let cur = old(self).notes@[old(self).curr_track as int]@;
                &&& tracks_view(final(self).notes@) == tracks_view(old(self).notes@).update(
                    old(self).curr_track as int,
                    merge_spec(cur, old(self).ghost_notes@),
                )
                &&& final(editor_actions).registered_from(
                    old(editor_actions),
                    ActionView::PlaceNotes(ints_as_usizes(merge_positions(cur, old(self).ghost_notes@)), None, old(self).curr_track),
                )
            }),
            final(self).ghost_notes@.len() == 0,
            final(self).selected_note_ids@ == old(self).selected_note_ids@,
            final(self).note_old_lengths@ == old(self).note_old_lengths@,
            final(self).note_old_positions@ == old(self).note_old_positions@,
            final(self).notes_clipboard@ == old(self).notes_clipboard@,
            final(self).same_settings(old(self)),
    {
        let ct = self.curr_track;
        let ids = self.merge_ghost_notes(ct);
        proof {
            assert(ints_as_usizes(usizes_as_ints(ids@)) =~= ids@);
            let tv = tracks_view(old(self).notes@);
            assert(tv.update(ct as int, Seq::empty()).update(ct as int, merge_spec(tv[ct as int], old(self).ghost_notes@))
                =~= tv.update(ct as int, merge_spec(tv[ct as int], old(self).ghost_notes@)));
        }
        editor_actions.register_action(EditorAction::PlaceNotes(ids, None, ct));
    }

    /// Merges the moved ghost notes back into the current track and records
    /// the move; when several notes moved, they become the selection.
    pub fn apply_ghost_move_notes(&mut self, pos_deltas: Vec<(SignedMIDITick, i16)>, editor_actions: &mut EditorActions)
        requires
            (old(self).curr_track as int) < old(self).notes@.len(),
            old(self).notes@[old(self).curr_track as int]@.len() + old(self).ghost_notes@.len() <= usize::MAX,
            old(editor_actions).wf(),
            old(editor_actions).max_actions_spec() > 0,
        ensures
            ({
                let cur = old(self).notes@[old(self).curr_track as int]@;
                let ids = ints_as_usizes(merge_positions(cur, old(self).ghost_notes@));
                &&& tracks_view(final(self).notes@) == tracks_view(old(self).notes@).update(
                    old(self).curr_track as int,
                    merge_spec(cur, old(self).ghost_notes@),
                )
                &&& final(self).selected_note_ids@ == (if pos_deltas@.len() > 1 { ids } else { old(self).selected_note_ids@ })
                &&& final(editor_actions).registered_from(
                    old(editor_actions),
                    ActionView::NotesMove(ids, pos_deltas@, old(self).curr_track, pos_deltas@.len() > 1),
                )
            }),
            final(self).ghost_notes@.len() == 0,
            final(self).note_old_lengths@ == old(self).note_old_lengths@,
            final(self).note_old_positions@ == old(self).note_old_positions@,
            final(self).notes_clipboard@ == old(self).notes_clipboard@,
            final(self).same_settings(old(self)),
    {
        let ct = self.curr_track;
        let ids = self.merge_ghost_notes(ct);
        proof {
            assert(ints_as_usizes(usizes_as_ints(ids@)) =~= ids@);
            let tv = tracks_view(old(self).notes@);
            assert(tv.update(ct as int, Seq::empty()).update(ct as int, merge_spec(tv[ct as int], old(self).ghost_notes@))
                =~= tv.update(ct as int, merge_spec(tv[ct as int], old(self).ghost_notes@)));
        }
        let is_editing_selected = if pos_deltas.len() > 1 {
            self.selected_note_ids = copy_id_vec(&ids);
            true
        } else {
            false
        };
        editor_actions.register_action(EditorAction::NotesMove(ids, pos_deltas, ct, is_editing_selected));
    }

    /// Copies the notes of `track` at `ids` right after the latest end among
    /// them (shifted by that end minus the first note's start), merges the
    /// copies in and records them as placed notes. Returns where they went.
    pub fn duplicate_notes(&mut self, track: u16, ids: &Vec<usize>, editor_actions: &mut EditorActions) -> (r: Vec<usize>)
        requires
            (track as int) < old(self).notes@.len(),
            ids@.len() > 0,
            all_below(ids@, old(self).notes@[track as int]@.len() as int),
            selected_ends_fit(old(self).notes@[track as int]@, ids@),
            ({
                let t = old(self).notes@[track as int]@;
                let mx = max_end_at(t, ids@, ids@.len() as int) as MIDITick;
                let mn = t[ids@[0] as int].start;
                &&& length_diff_fits(mx, mn)
                &&& forall|k: int| 0 <= k < ids@.len() ==> move_fits(#[trigger] t[ids@[k] as int], (length_diff(mx, mn), 0i16))
                &&& t.len() + ids@.len() <= usize::MAX
            }),
            old(editor_actions).wf(),
            old(editor_actions).max_actions_spec() > 0,
        ensures
            ({
                let t = old(self).notes@[track as int]@;
                let mx = max_end_at(t, ids@, ids@.len() as int) as MIDITick;
                let mn = t[ids@[0] as int].start;
                let moved = move_all_spec(notes_at(t, ids@), (length_diff(mx, mn), 0i16));
                &&& tracks_view(final(self).notes@) == tracks_view(old(self).notes@).update(track as int, merge_spec(t, moved))
                &&& usizes_as_ints(r@) == merge_positions(t, moved)
                &&& final(editor_actions).registered_from(old(editor_actions), ActionView::PlaceNotes(r@, None, track))
            }),
            final(self).notes@.len() == old(self).notes@.len(),
            final(self).selected_note_ids@ == old(self).selected_note_ids@,
            final(self).same_besides_edit_state(old(self)),
    {
        let copied_notes = self.clone_notes(track, ids.as_slice());
        let old_notes = self.take_notes_in_track(track);
        let ghost t = old_notes@;
        let min_tick = old_notes[ids[0]].start;
        proof {
            assert(ids@[0] < t.len());
        }
        let max_tick = get_absolute_max_tick_from_ids(&old_notes, ids).unwrap();
        proof {
            lemma_max_end_unique(t, ids@, max_tick as int);
            lemma_max_end_at(t, ids@, ids@.len() as int);
            assert forall|k: int| 0 <= k < copied_notes@.len() implies move_fits(#[trigger] copied_notes@[k], (length_diff(max_tick, min_tick), 0i16)) by {
                assert(copied_notes@[k] == t[ids@[k] as int]);
            }
        }
        let delta: SignedMIDITick = (#[verifier::truncate] (max_tick as SignedMIDITick)) - (#[verifier::truncate] (min_tick as SignedMIDITick));
        let moved = move_all_notes_by(copied_notes, (delta, 0));
        proof {
            crate::note_sequence_funcs::lemma_sort_spec(Seq::new(
                notes_at(t, ids@).len(),
                |k: int| crate::note_sequence_funcs::move_note_spec(notes_at(t, ids@)[k], (delta, 0i16)),
            ));
        }
        let (merged, dupe_ids) = merge_notes_and_return_ids(old_notes, moved);
        self.set_notes_in_track(track, merged);
        let recorded = copy_id_vec(&dupe_ids);
        editor_actions.register_action(EditorAction::PlaceNotes(recorded, None, track));
        dupe_ids
    }

    /// Duplicates the selected notes of the current track; the copies become
    /// the selection.
    pub fn duplicate_selected_notes(&mut self, editor_actions: &mut EditorActions)
        requires
            (old(self).curr_track as int) < old(self).notes@.len(),
            ({
                let ids = old(self).selected_note_ids@;
                let t = old(self).notes@[old(self).curr_track as int]@;
                let mx = max_end_at(t, ids, ids.len() as int) as MIDITick;
                let mn = t[ids[0] as int].start;
                &&& ids.len() > 0
                &&& all_below(ids, t.len() as int)
                &&& selected_ends_fit(t, ids)
                &&& length_diff_fits(mx, mn)
                &&& forall|k: int| 0 <= k < ids.len() ==> move_fits(#[trigger] t[ids[k] as int], (length_diff(mx, mn), 0i16))
                &&& t.len() + ids.len() <= usize::MAX
            }),
            old(editor_actions).wf(),
            old(editor_actions).max_actions_spec() > 0,
        ensures
            ({
                let ids = old(self).selected_note_ids@;
                let t = old(self).notes@[old(self).curr_track as int]@;
                let mx = max_end_at(t, ids, ids.len() as int) as MIDITick;
                let mn = t[ids[0] as int].start;
                let moved = move_all_spec(notes_at(t, ids), (length_diff(mx, mn), 0i16));
                &&& tracks_view(final(self).notes@) == tracks_view(old(self).notes@).update(old(self).curr_track as int, merge_spec(t, moved))
                &&& usizes_as_ints(final(self).selected_note_ids@) == merge_positions(t, moved)
                &&& final(editor_actions).registered_from(
                    old(editor_actions),
                    ActionView::PlaceNotes(final(self).selected_note_ids@, None, old(self).curr_track),
                )
            }),
            final(self).notes@.len() == old(self).notes@.len(),
            final(self).same_besides_edit_state(old(self)),
    {
        let ct = self.curr_track;
        let mut old_selected: Vec<usize> = Vec::new();
        std::mem::swap(&mut old_selected, &mut self.selected_note_ids);
        let new_selected = self.duplicate_notes(ct, &old_selected, editor_actions);
        self.selected_note_ids = new_selected;
    }

    /// Copies the selected notes of `track` to the clipboard; nothing happens
    /// when no note is selected.
    pub fn copy_notes(&mut self, track: u16)
        requires
            (track as int) < old(self).notes@.len(),
            all_below(old(self).selected_note_ids@, old(self).notes@[track as int]@.len() as int),
        ensures
            final(self).notes_clipboard@ == (if old(self).selected_note_ids@.len() == 0 {
                old(self).notes_clipboard@
            } else {
                notes_at(old(self).notes@[track as int]@, old(self).selected_note_ids@)
            }),
            final(self).notes@ == old(self).notes@,
            final(self).selected_note_ids@ == old(self).selected_note_ids@,
            final(self).ghost_notes@ == old(self).ghost_notes@,
            final(self).note_old_lengths@ == old(self).note_old_lengths@,
            final(self).note_old_positions@ == old(self).note_old_positions@,
            final(self).same_settings(old(self)),
    {
        if self.selected_note_ids.len() == 0 {
            return;
        }
        let notes_clipboard = self.clone_notes(track, self.selected_note_ids.as_slice());
        self.notes_clipboard = notes_clipboard;
    }

    /// Moves the selected notes of `track` to the clipboard, clears the
    /// selection and records the notes as deleted.
    pub fn cut_selected_notes(&mut self, track: u16, editor_actions: &mut EditorActions)
        requires
            (track as int) < old(self).notes@.len(),
            old(editor_actions).wf(),
            old(editor_actions).max_actions_spec() > 0,
        ensures
            ({
                let e = extract_spec(old(self).notes@[track as int]@, old(self).selected_note_ids@);
                &&& tracks_view(final(self).notes@) == tracks_view(old(self).notes@).update(track as int, e.1)
                &&& final(self).notes_clipboard@ == e.0
                &&& final(editor_actions).registered_from(
                    old(editor_actions),
                    ActionView::DeleteNotes(old(self).selected_note_ids@, Some(e.0), track),
                )
            }),
            final(self).selected_note_ids@.len() == 0,
            final(self).ghost_notes@ == old(self).ghost_notes@,
            final(self).note_old_lengths@ == old(self).note_old_lengths@,
            final(self).note_old_positions@ == old(self).note_old_positions@,
            final(self).same_settings(old(self)),
    {
        let old_notes = self.take_notes_in_track(track);
        let mut selected: Vec<usize> = Vec::new();
        std::mem::swap(&mut selected, &mut self.selected_note_ids);
        let (notes_to_cut, new_notes) = extract(old_notes, selected.as_slice());
        self.set_notes_in_track(track, new_notes);
        self.notes_clipboard = copy_note_vec(&notes_to_cut);
        editor_actions.register_action(EditorAction::DeleteNotes(selected, Some(notes_to_cut), track));
    }

    /// Pastes the clipboard into `track` so that its first note starts at
    /// `tick_pos`, and records the pasted notes as placed.
    pub fn paste_notes_offset(&mut self, track: u16, tick_pos: MIDITick, editor_actions: &mut EditorActions)
        requires
            (track as int) < old(self).notes@.len(),
            old(self).notes_clipboard@.len() > 0,
            forall|i: int| 0 <= i < old(self).notes_clipboard@.len() ==> {
                let n = #[trigger] old(self).notes_clipboard@[i];
                &&& n.start >= old(self).notes_clipboard@[0].start
                &&& n.start - old(self).notes_clipboard@[0].start + tick_pos <= MIDITick::MAX
            },
            old(self).notes@[track as int]@.len() + old(self).notes_clipboard@.len() <= usize::MAX,
            old(editor_actions).wf(),
            old(editor_actions).max_actions_spec() > 0,
        ensures
            ({
                let t = old(self).notes@[track as int]@;
                let p = pasted_at(old(self).notes_clipboard@, tick_pos);
                &&& tracks_view(final(self).notes@) == tracks_view(old(self).notes@).update(track as int, merge_spec(t, p))
                &&& final(editor_actions).registered_from(
                    old(editor_actions),
                    ActionView::PlaceNotes(ints_as_usizes(merge_positions(t, p)), None, track),
                )
            }),
            final(self).selected_note_ids@ == old(self).selected_note_ids@,
            final(self).same_besides_edit_state(old(self)),
    {
        let clip = &self.notes_clipboard;
        let first_tick = clip[0].start;
        let mut copied_notes: Vec<Note> = Vec::with_capacity(clip.len());
        let n = clip.len();
        for i in 0..n
            invariant
                n == clip@.len(),
                n > 0,
                first_tick == clip@[0].start,
                *clip == old(self).notes_clipboard,
                forall|i: int| 0 <= i < clip@.len() ==> {
                    let n = #[trigger] clip@[i];
                    &&& n.start >= clip@[0].start
                    &&& n.start - clip@[0].start + tick_pos <= MIDITick::MAX
                },
                copied_notes@ == pasted_at(clip@, tick_pos).subrange(0, i as int),
        {
            let note = clip[i];
            assert(clip@[i as int] == note);
            copied_notes.push(Note {
                start: note.start - first_tick + tick_pos,
                length: note.length,
                channel: note.channel,
                key: note.key,
                velocity: note.velocity,
            });
            assert(copied_notes@ =~= pasted_at(clip@, tick_pos).subrange(0, i + 1));
        }
        assert(copied_notes@ =~= pasted_at(clip@, tick_pos));
        let old_notes = self.take_notes_in_track(track);
        let (new_notes, new_ids) = merge_notes_and_return_ids(old_notes, copied_notes);
        self.set_notes_in_track(track, new_notes);
        proof {
            assert(ints_as_usizes(usizes_as_ints(new_ids@)) =~= new_ids@);
        }
        editor_actions.register_action(EditorAction::PlaceNotes(new_ids, None, track));
    }

    /// Pastes the clipboard into `track` at the clipboard notes' own ticks;
    /// the pasted notes become the selection and are recorded as placed.
    pub fn paste_notes(&mut self, track: u16, editor_actions: &mut EditorActions)
        requires
            (track as int) < old(self).notes@.len(),
            old(self).notes@[track as int]@.len() + old(self).notes_clipboard@.len() <= usize::MAX,
            old(editor_actions).wf(),
            old(editor_actions).max_actions_spec() > 0,
        ensures
            ({
                let t = old(self).notes@[track as int]@;
                let c = old(self).notes_clipboard@;
                &&& tracks_view(final(self).notes@) == tracks_view(old(self).notes@).update(track as int, merge_spec(t, c))
                &&& usizes_as_ints(final(self).selected_note_ids@) == merge_positions(t, c)
                &&& final(editor_actions).registered_from(
                    old(editor_actions),
                    ActionView::PlaceNotes(final(self).selected_note_ids@, None, track),
                )
            }),
            final(self).notes@.len() == old(self).notes@.len(),
            final(self).same_besides_edit_state(old(self)),
    {
        let copied_notes = copy_note_vec(&self.notes_clipboard);
        let old_notes = self.take_notes_in_track(track);
        let (new_notes, new_ids) = merge_notes_and_return_ids(old_notes, copied_notes);
        self.set_notes_in_track(track, new_notes);
        self.selected_note_ids = copy_id_vec(&new_ids);
        editor_actions.register_action(EditorAction::PlaceNotes(new_ids, None, track));
    }

    /// Deletes the notes of the current track at `ids`, keeps the selection
    /// pointing at the same notes (dropping deleted ones) and records the
    /// deletion.
    pub fn delete_notes(&mut self, ids: Vec<usize>, editor_actions: &mut EditorActions)
        requires
            (old(self).curr_track as int) < old(self).notes@.len(),
            remap_from(ids@, old(self).selected_note_ids@, 0, 0) is Some,
            old(editor_actions).wf(),
            old(editor_actions).max_actions_spec() > 0,
        ensures
            ({
                let e = extract_spec(old(self).notes@[old(self).curr_track as int]@, ids@);
                &&& tracks_view(final(self).notes@) == tracks_view(old(self).notes@).update(old(self).curr_track as int, e.1)
                &&& final(self).selected_note_ids@ == remap_from(ids@, old(self).selected_note_ids@, 0, 0)->0
                &&& final(editor_actions).registered_from(
                    old(editor_actions),
                    ActionView::DeleteNotes(ids@, Some(e.0), old(self).curr_track),
                )
            }),
            final(self).notes@.len() == old(self).notes@.len(),
            final(self).same_besides_edit_state(old(self)),
    {
        let ct = self.curr_track;
        let old_notes = self.take_notes_in_track(ct);
        let mut selected: Vec<usize> = Vec::new();
        std::mem::swap(&mut selected, &mut self.selected_note_ids);
        let (deleted_notes, new_notes, selected_) = extract_and_remap_ids(old_notes, ids.as_slice(), selected);
        self.selected_note_ids = selected_;
        self.set_notes_in_track(ct, new_notes);
        editor_actions.register_action(EditorAction::DeleteNotes(ids, Some(deleted_notes), ct));
    }

    /// Deletes the notes of the current track at `ids` and records the
    /// deletion; the selection is left as it is.
    pub fn delete_notes_no_remap(&mut self, ids: Vec<usize>, editor_actions: &mut EditorActions)
        requires
            (old(self).curr_track as int) < old(self).notes@.len(),
            old(editor_actions).wf(),
            old(editor_actions).max_actions_spec() > 0,
        ensures
            ({
                let e = extract_spec(old(self).notes@[old(self).curr_track as int]@, ids@);
                &&& tracks_view(final(self).notes@) == tracks_view(old(self).notes@).update(old(self).curr_track as int, e.1)
                &&& final(editor_actions).registered_from(
                    old(editor_actions),
                    ActionView::DeleteNotes(ids@, Some(e.0), old(self).curr_track),
                )
            }),
            final(self).selected_note_ids@ == old(self).selected_note_ids@,
            final(self).notes@.len() == old(self).notes@.len(),
            final(self).same_besides_edit_state(old(self)),
    {
        let ct = self.curr_track;
        let old_notes = self.take_notes_in_track(ct);
        let (deleted_notes, new_notes) = extract(old_notes, ids.as_slice());
        self.set_notes_in_track(ct, new_notes);
        editor_actions.register_action(EditorAction::DeleteNotes(ids, Some(deleted_notes), ct));
    }
}

} // verus!
