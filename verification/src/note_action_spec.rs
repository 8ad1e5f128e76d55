use vstd::prelude::*;
use crate::midi_types::{Note, SignedMIDITick};
use crate::actions::ActionView;
use crate::timed_seq::{merge_spec, merge_positions};
use crate::note_sequence_funcs::{extract_spec, remap_from, move_each_spec, move_fits};

verus! {

/// The part of the note editor that undo and redo change: the notes of each
/// track and the selected note indices (of the current track).
pub struct NoteEditState {
    pub tracks: Seq<Seq<Note>>,
    pub selected: Seq<usize>,
}

pub open spec fn ints_as_usizes(p: Seq<int>) -> Seq<usize> {
    p.map_values(|x: int| x as usize)
}

pub open spec fn with_track(st: NoteEditState, g: int, notes: Seq<Note>) -> NoteEditState {
    NoteEditState { tracks: st.tracks.update(g, notes), selected: st.selected }
}

/// Changing a channel by `d`: the channel is read as a signed byte, the sum is
/// kept within 0..=15. `None` when a step leaves the signed-byte range.
pub open spec fn channel_step(n: Note, d: i8) -> Option<(Note, i8)> {
    let c = (n.channel as i8) as int;
    let sum = c + d as int;
    if sum < i8::MIN || sum > i8::MAX {
        None
    } else {
        let nc = if sum < 0 {
            0
        } else if sum > 15 {
            15
        } else {
            sum
        };
        if nc - c < i8::MIN || nc - c > i8::MAX {
            None
        } else {
            Some((Note { channel: nc as u8, ..n }, (nc - c) as i8))
        }
    }
}

/// Changing a length by `d`: the length is read as a signed tick, the sum
/// saturates and is at least 1.
pub open spec fn length_step(n: Note, d: SignedMIDITick) -> Option<(Note, SignedMIDITick)> {
    let l = (n.length as i32) as int;
    let sum = l + d as int;
    let sat = if sum < i32::MIN {
        i32::MIN as int
    } else if sum > i32::MAX {
        i32::MAX as int
    } else {
        sum
    };
    let nl = if sat < 1 {
        1
    } else {
        sat
    };
    if nl - l < i32::MIN || nl - l > i32::MAX {
        None
    } else {
        Some((Note { length: nl as u32, ..n }, (nl - l) as i32))
    }
}

/// Changing a velocity by `d`: the velocity is read as a signed byte, the sum
/// saturates and is at least 1.
pub open spec fn velocity_step(n: Note, d: i8) -> Option<(Note, i8)> {
    let v = (n.velocity as i8) as int;
    let sum = v + d as int;
    let sat = if sum < i8::MIN {
        i8::MIN as int
    } else if sum > i8::MAX {
        i8::MAX as int
    } else {
        sum
    };
    let nv = if sat < 1 {
        1
    } else {
        sat
    };
    if nv - v < i8::MIN || nv - v > i8::MAX {
        None
    } else {
        Some((Note { velocity: nv as u8, ..n }, (nv - v) as i8))
    }
}

/// Applies the channel changes for the ids from `i` on, in order; each
/// delta is replaced by the change actually made.
pub open spec fn channel_fold(notes: Seq<Note>, ids: Seq<usize>, d: Seq<i8>, i: int) -> Option<
    (Seq<Note>, Seq<i8>),
>
    decreases ids.len() - i,
{
    if i < 0 || i >= ids.len() {
        Some((notes, d))
    } else if ids[i] >= notes.len() || i >= d.len() {
        None
    } else {
        match channel_step(notes[ids[i] as int], d[i]) {
            None => None,
            Some((n2, d2)) => channel_fold(notes.update(ids[i] as int, n2), ids, d.update(i, d2), i + 1),
        }
    }
}

pub open spec fn length_fold(notes: Seq<Note>, ids: Seq<usize>, d: Seq<SignedMIDITick>, i: int) -> Option<
    (Seq<Note>, Seq<SignedMIDITick>),
>
    decreases ids.len() - i,
{
    if i < 0 || i >= ids.len() {
        Some((notes, d))
    } else if ids[i] >= notes.len() || i >= d.len() {
        None
    } else {
        match length_step(notes[ids[i] as int], d[i]) {
            None => None,
            Some((n2, d2)) => length_fold(notes.update(ids[i] as int, n2), ids, d.update(i, d2), i + 1),
        }
    }
}

pub open spec fn velocity_fold(notes: Seq<Note>, ids: Seq<usize>, d: Seq<i8>, i: int) -> Option<
    (Seq<Note>, Seq<i8>),
>
    decreases ids.len() - i,
{
    if i < 0 || i >= ids.len() {
        Some((notes, d))
    } else if ids[i] >= notes.len() || i >= d.len() {
        None
    } else {
        match velocity_step(notes[ids[i] as int], d[i]) {
            None => None,
            Some((n2, d2)) => velocity_fold(notes.update(ids[i] as int, n2), ids, d.update(i, d2), i + 1),
        }
    }
}

/// Moving the notes at `ids` of `notes` by `d`: the result's notes, the new
/// indices of the moved notes and the changes actually applied.
pub open spec fn notes_move_result(notes: Seq<Note>, ids: Seq<usize>, d: Seq<(SignedMIDITick, i16)>) -> (
    Seq<Note>,
    Seq<usize>,
    Seq<(SignedMIDITick, i16)>,
) {
    let (to_move, rest) = extract_spec(notes, ids);
    let moved = move_each_spec(to_move, d);
    let moved_notes = moved.map_values(|x: (Note, (SignedMIDITick, i16))| x.0);
    let dts = moved.map_values(|x: (Note, (SignedMIDITick, i16))| x.1);
    (
        merge_spec(rest, moved_notes),
        ints_as_usizes(merge_positions(rest, moved_notes)),
        dts,
    )
}

pub open spec fn notes_move_ok(notes: Seq<Note>, ids: Seq<usize>, d: Seq<(SignedMIDITick, i16)>) -> bool {
    let to_move = extract_spec(notes, ids).0;
    forall|k: int|
        0 <= k < to_move.len() && k < d.len() ==> move_fits(#[trigger] to_move[k], d[k])
}

/// What applying the (already inverted) action `a` to the note editor does:
/// the new state and the action as it is stored afterwards. `None` when the
/// editor would fail (a track that does not exist, notes missing where they
/// must be carried, or a computation leaving its integer range).
pub open spec fn apply_note_spec(st: NoteEditState, a: ActionView) -> Option<(NoteEditState, ActionView)>
    decreases a, 0int,
{
    match a {
        ActionView::PlaceNotes(ids, n, g) => {
            if g >= st.tracks.len() || n is None || st.tracks[g as int].len() + n->0.len()
                > usize::MAX {
                None
            } else {
                Some(
                    (
                        with_track(st, g as int, merge_spec(st.tracks[g as int], n->0)),
                        ActionView::PlaceNotes(ids, None, g),
                    ),
                )
            }
        },
        ActionView::DeleteNotes(ids, _, g) => {
            if g >= st.tracks.len() || remap_from(ids, st.selected, 0, 0) is None {
                None
            } else {
                let (deleted, kept) = extract_spec(st.tracks[g as int], ids);
                Some(
                    (
                        NoteEditState {
                            tracks: st.tracks.update(g as int, kept),
                            selected: remap_from(ids, st.selected, 0, 0)->0,
                        },
                        ActionView::DeleteNotes(ids, Some(deleted), g),
                    ),
                )
            }
        },
        ActionView::NotesMove(ids, d, g, sel) => {
            if g >= st.tracks.len() || !notes_move_ok(st.tracks[g as int], ids, d) {
                None
            } else {
                let (merged, new_ids, dts) = notes_move_result(st.tracks[g as int], ids, d);
                Some(
                    (
                        NoteEditState {
                            tracks: st.tracks.update(g as int, merged),
                            selected: if sel {
                                new_ids
                            } else {
                                st.selected
                            },
                        },
                        ActionView::NotesMove(new_ids, dts, g, sel),
                    ),
                )
            }
        },
        ActionView::ChannelChange(ids, d, g) => {
            if g >= st.tracks.len() {
                None
            } else {
                match channel_fold(st.tracks[g as int], ids, d, 0) {
                    None => None,
                    Some((n2, d2)) => Some(
                        (with_track(st, g as int, n2), ActionView::ChannelChange(ids, d2, g)),
                    ),
                }
            }
        },
        ActionView::LengthChange(ids, d, g) => {
            if g >= st.tracks.len() {
                None
            } else {
                match length_fold(st.tracks[g as int], ids, d, 0) {
                    None => None,
                    Some((n2, d2)) => Some(
                        (with_track(st, g as int, n2), ActionView::LengthChange(ids, d2, g)),
                    ),
                }
            }
        },
        ActionView::VelocityChange(ids, d, g) => {
            if g >= st.tracks.len() {
                None
            } else {
                match velocity_fold(st.tracks[g as int], ids, d, 0) {
                    None => None,
                    Some((n2, d2)) => Some(
                        (with_track(st, g as int, n2), ActionView::VelocityChange(ids, d2, g)),
                    ),
                }
            }
        },
        ActionView::Bulk(s) => match apply_note_bulk(st, s, s.len() as int) {
            None => None,
            Some((st2, s2)) => Some((st2, ActionView::Bulk(s2))),
        },
        _ => Some((st, a)),
    }
}

/// Applies `s[n - 1]`, then `s[n - 2]`, ..., then `s[0]`; returns the state
/// and the first `n` actions as they are stored afterwards.
pub open spec fn apply_note_bulk(st: NoteEditState, s: Seq<ActionView>, n: int) -> Option<
    (NoteEditState, Seq<ActionView>),
>
    decreases s, n,
{
    if n <= 0 || n > s.len() {
        Some((st, Seq::empty()))
    } else {
        match apply_note_spec(st, s[n - 1]) {
            None => None,
            Some((st1, a1)) => match apply_note_bulk(st1, s, n - 1) {
                None => None,
                Some((st2, rest)) => Some((st2, rest.push(a1))),
            },
        }
    }
}

} // verus!
