use vstd::prelude::*;
use crate::midi_types::{Note, MIDITick, SignedMIDITick};
use crate::actions::{EditorAction, ActionView};
use crate::note_action_spec::{
    NoteEditState, apply_note_spec, apply_note_bulk, channel_fold, length_fold, velocity_fold,
    notes_move_result, notes_move_ok, ints_as_usizes,
};
use crate::note_sequence_funcs::{extract, extract_and_remap_ids, move_each_note_by, merge_notes, extract_spec};
use crate::actions::action_view;
use crate::timed_seq::{merge_timed, usizes_as_ints, reversed};

verus! {

broadcast use vstd::seq_lib::group_seq_properties;


/// A note that is being placed or dragged, remembering where it came from.
pub struct GhostNote {
    pub id: Option<usize>,
    pub note: Note,
}

impl GhostNote {
    pub fn note_mut(&mut self) -> (r: &mut Note)
        ensures
            *r == old(self).note,
            final(self).note == *final(r),
            final(self).id == old(self).id,
    {
        &mut self.note
    }

    pub fn get_note(&self) -> (r: &Note)
        ensures
            *r == self.note,
    {
        &self.note
    }

    pub fn into_note(self) -> (r: Note)
        ensures
            r == self.note,
    {
        self.note
    }

    pub fn set_note(&mut self, note: Note)
        ensures
            final(self).note == note,
            final(self).id == old(self).id,
    {
        self.note = note
    }
}

/// The editing state of the piano roll: the notes of every track, the
/// selection, the notes being dragged, the clipboard and the tool flags.
pub struct NoteEditing {
    pub notes: Vec<Vec<Note>>,
    pub ghost_notes: Vec<Note>,
    pub selected_note_ids: Vec<usize>,
    pub note_old_positions: Vec<(MIDITick, u8)>,
    pub note_old_lengths: Vec<(usize, MIDITick)>,
    pub ppq: u16,
    pub notes_clipboard: Vec<Note>,
    pub latest_note_start: MIDITick,
    pub selection_range: (MIDITick, MIDITick, u8, u8),
    pub draw_select_box: bool,
    pub flags: u16,
    pub curr_track: u16,
}

pub open spec fn tracks_view(notes: Seq<Vec<Note>>) -> Seq<Seq<Note>> {
    notes.map_values(|t: Vec<Note>| t@)
}

impl NoteEditing {
    pub open spec fn edit_state(&self) -> NoteEditState {
        NoteEditState { tracks: tracks_view(self.notes@), selected: self.selected_note_ids@ }
    }

    /// Everything but the notes of the tracks and the selection is as in `other`.
    pub open spec fn same_besides_edit_state(&self, other: &NoteEditing) -> bool {
        &&& self.ghost_notes@ == other.ghost_notes@
        &&& self.note_old_positions@ == other.note_old_positions@
        &&& self.note_old_lengths@ == other.note_old_lengths@
        &&& self.ppq == other.ppq
        &&& self.notes_clipboard@ == other.notes_clipboard@
        &&& self.latest_note_start == other.latest_note_start
        &&& self.selection_range == other.selection_range
        &&& self.draw_select_box == other.draw_select_box
        &&& self.flags == other.flags
        &&& self.curr_track == other.curr_track
    }

    /// A note editor over the given tracks (there must be at least one).
    pub fn new(notes: Vec<Vec<Note>>) -> (r: Self)
        requires
            notes@.len() > 0,
        ensures
            r.notes@ == notes@,
            r.ghost_notes@.len() == 0,
            r.selected_note_ids@.len() == 0,
            r.notes_clipboard@.len() == 0,
            r.note_old_positions@.len() == 0,
            r.note_old_lengths@.len() == 0,
            r.latest_note_start == 38400,
            r.ppq == 960,
            r.selection_range == (0u32, 0u32, 0u8, 0u8),
            !r.draw_select_box,
            r.flags == crate::note_edit_flags::NOTE_EDIT_FLAGS_NONE,
            r.curr_track == 0,
    {
        NoteEditing {
            notes,
            ghost_notes: Vec::new(),
            selected_note_ids: Vec::new(),
            note_old_positions: Vec::new(),
            note_old_lengths: Vec::new(),
            ppq: 960,
            notes_clipboard: Vec::new(),
            latest_note_start: 38400,
            selection_range: (0, 0, 0, 0),
            draw_select_box: false,
            flags: crate::note_edit_flags::NOTE_EDIT_FLAGS_NONE,
            curr_track: 0,
        }
    }

    /// Takes the notes out of a track, leaving it empty.
    pub fn take_notes_in_track(&mut self, track: u16) -> (r: Vec<Note>)
        requires
            (track as int) < old(self).notes@.len(),
        ensures
            r@ == tracks_view(old(self).notes@)[track as int],
            tracks_view(final(self).notes@) == tracks_view(old(self).notes@).update(
                track as int,
                Seq::empty(),
            ),
            final(self).selected_note_ids@ == old(self).selected_note_ids@,
            final(self).notes@.len() == old(self).notes@.len(),
            final(self).same_besides_edit_state(old(self)),
    {
        let mut taken: Vec<Note> = Vec::new();
        let ghost t0 = tracks_view(self.notes@);
        std::mem::swap(&mut taken, &mut self.notes[track as usize]);
        proof {
            assert(tracks_view(self.notes@) =~= t0.update(track as int, Seq::empty()));
        }
        taken
    }

    /// Replaces the notes of a track.
    pub fn set_notes_in_track(&mut self, track: u16, notes_: Vec<Note>)
        requires
            (track as int) < old(self).notes@.len(),
        ensures
            tracks_view(final(self).notes@) == tracks_view(old(self).notes@).update(
                track as int,
                notes_@,
            ),
            final(self).selected_note_ids@ == old(self).selected_note_ids@,
            final(self).notes@.len() == old(self).notes@.len(),
            final(self).same_besides_edit_state(old(self)),
    {
        let ghost t0 = tracks_view(self.notes@);
        self.notes.set(track as usize, notes_);
        proof {
            assert(tracks_view(self.notes@) =~= t0.update(track as int, notes_@));
        }
    }

    /// Applies an (already inverted) action from the undo/redo history to the
    /// notes and the selection, and updates the action to what undoes it again.
    pub fn apply_action(&mut self, action: &mut EditorAction)
        requires
            apply_note_spec(old(self).edit_state(), old(action)@) is Some,
        ensures
            final(self).edit_state() == apply_note_spec(old(self).edit_state(), old(action)@).unwrap().0,
            final(action)@ == apply_note_spec(old(self).edit_state(), old(action)@).unwrap().1,
            final(self).notes@.len() == old(self).notes@.len(),
            final(self).same_besides_edit_state(old(self)),
    {
        let mut a = EditorAction::SwapTracks(0, 0);
        std::mem::swap(&mut a, action);
        let r = self.apply_owned(a);
        *action = r;
    }

    fn apply_owned(&mut self, action: EditorAction) -> (r: EditorAction)
        requires
            apply_note_spec(old(self).edit_state(), action@) is Some,
        ensures
            final(self).edit_state() == apply_note_spec(old(self).edit_state(), action@).unwrap().0,
            r@ == apply_note_spec(old(self).edit_state(), action@).unwrap().1,
            final(self).notes@.len() == old(self).notes@.len(),
            final(self).same_besides_edit_state(old(self)),
        decreases action,
    {
        let ghost a0 = action;
        let ghost st0 = self.edit_state();
        match action {
            EditorAction::PlaceNotes(ids, notes_deleted, track) => {
                let recovered = notes_deleted.unwrap();
                let old_notes = self.take_notes_in_track(track);
                let merged = merge_notes(old_notes, recovered);
                self.set_notes_in_track(track, merged);
                proof {
                    assert(self.edit_state().tracks =~= apply_note_spec(st0, a0@).unwrap().0.tracks);
                }
                EditorAction::PlaceNotes(ids, None, track)
            },
            EditorAction::DeleteNotes(ids, _notes_deleted, track) => {
                let old_notes = self.take_notes_in_track(track);
                let mut old_sel: Vec<usize> = Vec::new();
                std::mem::swap(&mut old_sel, &mut self.selected_note_ids);
                let (deleted, new_notes, new_ids) = extract_and_remap_ids(
                    old_notes,
                    ids.as_slice(),
                    old_sel,
                );
                self.selected_note_ids = new_ids;
                self.set_notes_in_track(track, new_notes);
                proof {
                    assert(self.edit_state().tracks =~= apply_note_spec(st0, a0@).unwrap().0.tracks);
                }
                EditorAction::DeleteNotes(ids, Some(deleted), track)
            },
            EditorAction::NotesMove(ids, delta_pos, track, selected) => {
                let old_notes = self.take_notes_in_track(track);
                let total = old_notes.len();
                let (notes_to_move, rest) = extract(old_notes, ids.as_slice());
                proof {
                    crate::note_sequence_funcs::lemma_extract_from_multiset(
                        st0.tracks[track as int],
                        ids@,
                        0,
                        0,
                    );
                }
                let moved = move_each_note_by(notes_to_move, delta_pos.as_slice());
                let ghost mv = moved@;
                proof {
                    let to_move = extract_spec(st0.tracks[track as int], ids@).0;
                    let n = if to_move.len() <= delta_pos@.len() {
                        to_move.len()
                    } else {
                        delta_pos@.len()
                    };
                    crate::note_sequence_funcs::lemma_sort_spec(
                        Seq::new(
                            n,
                            |k: int|
                                (
                                    crate::note_sequence_funcs::move_note_spec(
                                        to_move[k],
                                        delta_pos@[k],
                                    ),
                                    crate::note_sequence_funcs::applied_delta(
                                        to_move[k],
                                        delta_pos@[k],
                                    ),
                                ),
                        ),
                    );
                }
                let mut moved_notes: Vec<Note> = Vec::new();
                let mut notes_dt: Vec<(SignedMIDITick, i16)> = Vec::new();
                let mut k: usize = 0;
                while k < moved.len()
                    invariant
                        mv == moved@,
                        k <= mv.len(),
                        moved_notes@.len() == k,
                        notes_dt@.len() == k,
                        forall|j: int| 0 <= j < k ==> #[trigger] moved_notes@[j] == mv[j].0,
                        forall|j: int| 0 <= j < k ==> #[trigger] notes_dt@[j] == mv[j].1,
                    decreases mv.len() - k,
                {
                    let (n, d) = moved[k];
                    moved_notes.push(n);
                    notes_dt.push(d);
                    k += 1;
                }
                proof {
                    assert(moved_notes@ =~= mv.map_values(|x: (Note, (SignedMIDITick, i16))| x.0));
                    assert(notes_dt@ =~= mv.map_values(|x: (Note, (SignedMIDITick, i16))| x.1));
                }
                let (merged, new_ids) = merge_timed(rest, moved_notes);
                proof {
                    assert(new_ids@ =~= ints_as_usizes(usizes_as_ints(new_ids@)));
                }
                self.set_notes_in_track(track, merged);
                if selected {
                    let mut sel_copy: Vec<usize> = Vec::new();
                    let mut j: usize = 0;
                    while j < new_ids.len()
                        invariant
                            j <= new_ids@.len(),
                            sel_copy@ == new_ids@.take(j as int),
                        decreases new_ids@.len() - j,
                    {
                        sel_copy.push(new_ids[j]);
                        j += 1;
                        proof {
                            assert(sel_copy@ =~= new_ids@.take(j as int));
                        }
                    }
                    proof {
                        assert(new_ids@.take(j as int) =~= new_ids@);
                    }
                    self.selected_note_ids = sel_copy;
                }
                proof {
                    assert(self.edit_state().tracks =~= apply_note_spec(st0, a0@).unwrap().0.tracks);
                }
                EditorAction::NotesMove(new_ids, notes_dt, track, selected)
            },
            EditorAction::ChannelChange(ids, delta_channel, track) => {
                let mut notes = self.take_notes_in_track(track);
                let mut delta_channel = delta_channel;
                let mut i: usize = 0;
                while i < ids.len()
                    invariant
                        i <= ids@.len(),
                        channel_fold(notes@, ids@, delta_channel@, i as int) == channel_fold(
                            st0.tracks[track as int],
                            ids@,
                            a0@->ChannelChange_1,
                            0,
                        ),
                        channel_fold(notes@, ids@, delta_channel@, i as int) is Some,
                    decreases ids@.len() - i,
                {
                    let id = ids[i];
                    let mut note = notes[id];
                    let dt_channel = delta_channel[i];
                    let c = note.channel as i8;
                    let mut new_channel = c + dt_channel;
                    if new_channel < 0 {
                        new_channel = 0;
                    }
                    if new_channel > 15 {
                        new_channel = 15;
                    }
                    delta_channel.set(i, new_channel - c);
                    note.channel = new_channel as u8;
                    notes.set(id, note);
                    i += 1;
                }
                self.set_notes_in_track(track, notes);
                proof {
                    assert(self.edit_state().tracks =~= apply_note_spec(st0, a0@).unwrap().0.tracks);
                }
                EditorAction::ChannelChange(ids, delta_channel, track)
            },
            EditorAction::LengthChange(ids, delta_length, track) => {
                let mut notes = self.take_notes_in_track(track);
                let mut delta_length = delta_length;
                let mut i: usize = 0;
                while i < ids.len()
                    invariant
                        i <= ids@.len(),
                        length_fold(notes@, ids@, delta_length@, i as int) == length_fold(
                            st0.tracks[track as int],
                            ids@,
                            a0@->LengthChange_1,
                            0,
                        ),
                        length_fold(notes@, ids@, delta_length@, i as int) is Some,
                    decreases ids@.len() - i,
                {
                    let id = ids[i];
                    let mut note = notes[id];
                    let dt_length = delta_length[i];
                    let l = note.length as SignedMIDITick;
                    let sum = l as i64 + dt_length as i64;
                    let mut new_length: SignedMIDITick = if sum < i32::MIN as i64 {
                        i32::MIN
                    } else if sum > i32::MAX as i64 {
                        i32::MAX
                    } else {
                        sum as i32
                    };
                    if new_length < 1 {
                        new_length = 1;
                    }
                    delta_length.set(i, new_length - l);
                    note.length = new_length as MIDITick;
                    notes.set(id, note);
                    i += 1;
                }
                self.set_notes_in_track(track, notes);
                proof {
                    assert(self.edit_state().tracks =~= apply_note_spec(st0, a0@).unwrap().0.tracks);
                }
                EditorAction::LengthChange(ids, delta_length, track)
            },
            EditorAction::VelocityChange(ids, delta_velocity, track) => {
                let mut notes = self.take_notes_in_track(track);
                let mut delta_velocity = delta_velocity;
                let mut i: usize = 0;
                while i < ids.len()
                    invariant
                        i <= ids@.len(),
                        velocity_fold(notes@, ids@, delta_velocity@, i as int) == velocity_fold(
                            st0.tracks[track as int],
                            ids@,
                            a0@->VelocityChange_1,
                            0,
                        ),
                        velocity_fold(notes@, ids@, delta_velocity@, i as int) is Some,
                    decreases ids@.len() - i,
                {
                    let id = ids[i];
                    let mut note = notes[id];
                    let dt_velocity = delta_velocity[i];
                    let v = note.velocity as i8;
                    let sum = v as i16 + dt_velocity as i16;
                    let mut new_velocity: i8 = if sum < i8::MIN as i16 {
                        i8::MIN
                    } else if sum > i8::MAX as i16 {
                        i8::MAX
                    } else {
                        sum as i8
                    };
                    if new_velocity < 1 {
                        new_velocity = 1;
                    }
                    delta_velocity.set(i, new_velocity - v);
                    note.velocity = new_velocity as u8;
                    notes.set(id, note);
                    i += 1;
                }
                self.set_notes_in_track(track, notes);
                proof {
                    assert(self.edit_state().tracks =~= apply_note_spec(st0, a0@).unwrap().0.tracks);
                }
                EditorAction::VelocityChange(ids, delta_velocity, track)
            },
            EditorAction::Bulk(actions) => {
                let ghost v0 = actions;
                let ghost vv = actions@;
                let ghost s = a0@->Bulk_0;
                proof {
                    assert(s.len() == vv.len());
                    assert forall|j: int| 0 <= j < vv.len() implies s[j] == (#[trigger] vv[j])@ by {}
                }
                let mut actions = actions;
                let mut done_rev: Vec<EditorAction> = Vec::new();
                let ghost mut suffix: Seq<ActionView> = Seq::empty();
                while actions.len() > 0
                    invariant
                        a0 == EditorAction::Bulk(v0),
                        action == a0,
                        vv == v0@,
                        s == a0@->Bulk_0,
                        s.len() == vv.len(),
                        forall|j: int| 0 <= j < vv.len() ==> s[j] == (#[trigger] vv[j])@,
                        actions@.len() <= vv.len(),
                        forall|j: int| 0 <= j < actions@.len() ==> #[trigger] actions@[j] == vv[j],
                        done_rev@.len() + actions@.len() == vv.len(),
                        suffix.len() == done_rev@.len(),
                        forall|j: int|
                            0 <= j < done_rev@.len() ==> (#[trigger] done_rev@[j])@ == suffix[suffix.len()
                                - 1 - j],
                        apply_note_bulk(self.edit_state(), s, actions@.len() as int) is Some,
                        apply_note_bulk(st0, s, s.len() as int) is Some,
                        apply_note_bulk(st0, s, s.len() as int).unwrap().0 == apply_note_bulk(
                            self.edit_state(),
                            s,
                            actions@.len() as int,
                        ).unwrap().0,
                        apply_note_bulk(st0, s, s.len() as int).unwrap().1 == apply_note_bulk(
                            self.edit_state(),
                            s,
                            actions@.len() as int,
                        ).unwrap().1 + suffix,
                        self.notes@.len() == old(self).notes@.len(),
                        self.same_besides_edit_state(old(self)),
                    decreases actions@.len(),
                {
                    let ghost m = actions@.len() as int;
                    let x = actions.pop().unwrap();
                    proof {
                        assert(decreases_to!(a0 => a0->Bulk_0));
                        assert(a0->Bulk_0 == v0);
                        assert(decreases_to!(v0 => v0@));
                        assert(decreases_to!(vv => vv[m - 1]));
                        assert(x == vv[m - 1]);
                        assert(x@ == s[m - 1]);
                    }
                    let ghost st_before = self.edit_state();
                    let y = self.apply_owned(x);
                    done_rev.push(y);
                    proof {
                        let inner = apply_note_bulk(self.edit_state(), s, m - 1);
                        assert(apply_note_bulk(st_before, s, m).unwrap().1 == inner.unwrap().1.push(y@));
                        suffix = seq![y@] + suffix;
                        assert(apply_note_bulk(st0, s, s.len() as int).unwrap().1 =~= inner.unwrap().1 + suffix);
                    }
                }
                let done = reversed(done_rev);
                let r = EditorAction::Bulk(done);
                proof {
                    assert(apply_note_bulk(self.edit_state(), s, 0).unwrap().1 =~= Seq::<ActionView>::empty());
                    let res = apply_note_bulk(st0, s, s.len() as int).unwrap().1;
                    assert(res =~= suffix);
                    let lhs = r@->Bulk_0;
                    assert forall|j: int| 0 <= j < lhs.len() implies lhs[j] == res[j] by {
                        assert(lhs[j] == action_view(done@[j]));
                        assert(done@[j] == done_rev@[done_rev@.len() - 1 - j]);
                    }
                    assert(lhs =~= res);
                }
                r
            },
            other => other,
        }
    }
}

} // verus!
