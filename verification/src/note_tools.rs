//! The piano roll's tools (pencil, selector, eraser): what a mouse press,
//! drag or release does to the notes, the ghost notes being dragged, the
//! selection and the tool flags. The view works out where the mouse is (in
//! ticks and keys) and does what the returned outcome asks of it.
use vstd::prelude::*;
use crate::midi_types::{Note, MIDITick, SignedMIDITick};
use crate::note_editing::{NoteEditing, tracks_view};
use crate::note_editing_ops::{
    min_snap_spec, snap_spec, toolbar_note, offset_ghost, lengths_offset, ghost_delta, all_below, latest_last_start,
};
use crate::actions::{EditorAction, EditorActions, ActionView};
use crate::note_action_spec::ints_as_usizes;
use crate::timed_seq::{merge_spec, merge_positions};
use crate::edit_functions::{length_diff, length_diff_fits};
use crate::note_queries::{notes_in_range_spec, range_scan_fits, get_notes_in_range, find_note_at, found_note_at, find_note_fits};
use crate::note_sequence_funcs::{extract_spec, remap_from};
use crate::note_edit_flags::{
    NOTE_EDIT_LENGTH_CHANGE, NOTE_EDIT_DRAGGING, NOTE_EDIT_MULTIEDIT, NOTE_EDIT_IS_EDITING, NOTE_EDIT_ERASING,
    NOTE_EDIT_SYNTH_PLAY, NOTE_EDIT_MOUSE_OVER_UI, NOTE_EDIT_MOUSE_DOWN_ON_UI, NOTE_EDIT_ANY_DIALOG_OPEN,
    NOTE_EDIT_MOUSE_OVER_NOTE,
};

verus! {

/// The tool the piano roll edits with.
#[derive(Clone, Copy, PartialEq, Eq, Structural, Debug)]
pub enum EditorTool {
    Pencil,
    Eraser,
    Selector,
}

/// Where the mouse is, in ticks and keys, and what it last pressed on.
#[derive(Clone, Copy, PartialEq, Eq, Debug)]
pub struct NoteEditMouseInfo {
    pub mouse_midi_pos: (MIDITick, u8),
    pub mouse_midi_pos_rounded: (MIDITick, u8),
    pub last_mouse_click_pos: (MIDITick, u8),
    pub last_clicked_note_idx: Option<usize>,
    pub last_clicked_note_pos: (MIDITick, u8),
    pub note_hover_idx: Option<usize>,
    pub is_at_note_end: bool,
}

/// The note the toolbar draws with: its channel as shown (counted from 1),
/// gate (length) and velocity.
#[derive(Clone, Copy, PartialEq, Eq, Structural, Debug)]
pub struct ToolbarNote {
    pub channel_shown: u8,
    pub gate: MIDITick,
    pub velocity: u8,
}

/// What the view has to do after a tool event: show or hide the ghost
/// notes, redraw the selection, or take the toolbar's values from a note.
#[derive(Clone, Copy, PartialEq, Eq, Debug)]
pub struct ToolOutcome {
    pub show_ghost_notes: bool,
    pub hide_ghost_notes: bool,
    pub selection_changed: bool,
    pub toolbar_from_note: Option<Note>,
}

pub open spec fn no_outcome() -> ToolOutcome {
    ToolOutcome { show_ghost_notes: false, hide_ghost_notes: false, selection_changed: false, toolbar_from_note: None }
}

/// The part of the note editor that the tools change.
pub struct ToolView {
    pub tracks: Seq<Seq<Note>>,
    pub ghosts: Seq<Note>,
    pub selected: Seq<usize>,
    pub old_positions: Seq<(MIDITick, u8)>,
    pub old_lengths: Seq<(usize, MIDITick)>,
    pub flags: u16,
    pub selection_range: (MIDITick, MIDITick, u8, u8),
    pub draw_select_box: bool,
}

/// The grid snap can be applied to `tick`: the snap ratio is usable and the
/// computation stays within 32 signed bits.
pub open spec fn snap_ok(ppq: u16, snap_ratio: (u8, u16), tick: int) -> bool {
    &&& (snap_ratio.0 != 0 ==> snap_ratio.1 != 0)
    &&& min_snap_spec(ppq, snap_ratio) != 0
    &&& i32::MIN <= tick - min_snap_spec(ppq, snap_ratio) / 2
    &&& tick + min_snap_spec(ppq, snap_ratio) / 2 <= i32::MAX
    &&& i32::MIN <= snap_spec(tick, min_snap_spec(ppq, snap_ratio)) <= i32::MAX
}

/// `tick` snapped to the grid.
pub open spec fn snapped(ppq: u16, snap_ratio: (u8, u16), tick: int) -> int {
    snap_spec(tick, min_snap_spec(ppq, snap_ratio))
}

/// A tick read as a signed tick.
pub open spec fn signed_tick(t: MIDITick) -> int {
    (t as i32) as int
}

/// The selection box's corners in order: (min tick, max tick, min key, max key).
pub open spec fn ordered_range(r: (MIDITick, MIDITick, u8, u8)) -> (MIDITick, MIDITick, u8, u8) {
    (
        if r.0 > r.1 { r.1 } else { r.0 },
        if r.0 > r.1 { r.0 } else { r.1 },
        if r.2 > r.3 { r.3 } else { r.2 },
        if r.2 > r.3 { r.2 } else { r.3 },
    )
}

/// The first ghost note set to `n` (created if there is none).
pub open spec fn with_first_ghost(ghost: Seq<Note>, n: Note) -> Seq<Note> {
    if ghost.len() == 0 {
        seq![n]
    } else {
        ghost.update(0, n)
    }
}

/// Every ghost note moved by `d` from its remembered position.
pub open spec fn offset_all(ghosts: Seq<Note>, positions: Seq<(MIDITick, u8)>, d: (SignedMIDITick, i16)) -> Seq<Note> {
    Seq::new(ghosts.len(), |i: int| offset_ghost(ghosts[i], positions[i], d))
}

/// How far the mouse has moved in ticks since it was pressed.
pub open spec fn mouse_travel(m: NoteEditMouseInfo) -> int {
    signed_tick(m.mouse_midi_pos.0) - signed_tick(m.last_mouse_click_pos.0)
}

/// The mouse's travel can be snapped.
pub open spec fn travel_ok(ppq: u16, snap_ratio: (u8, u16), m: NoteEditMouseInfo) -> bool {
    &&& i32::MIN <= mouse_travel(m) <= i32::MAX
    &&& snap_ok(ppq, snap_ratio, mouse_travel(m))
}

/// The mouse's travel snapped to the grid.
pub open spec fn snapped_travel(ppq: u16, snap_ratio: (u8, u16), m: NoteEditMouseInfo) -> int {
    snapped(ppq, snap_ratio, mouse_travel(m))
}

/// A key kept within 0..=127.
pub open spec fn clamp_key(k: int) -> u8 {
    if k < 0 {
        0
    } else if k > 127 {
        127
    } else {
        k as u8
    }
}

/// Dragging ghost notes can go ahead: with several notes, each moved start
/// stays a signed tick; with one, its new start does.
pub open spec fn drag_ok(v: ToolView, ppq: u16, snap_ratio: (u8, u16), m: NoteEditMouseInfo, tb: ToolbarNote) -> bool {
    let d = snapped_travel(ppq, snap_ratio, m);
    &&& travel_ok(ppq, snap_ratio, m)
    &&& if v.flags & NOTE_EDIT_MULTIEDIT != 0 {
        &&& v.old_positions.len() > 0
        &&& v.ghosts.len() == v.old_positions.len()
        &&& forall|i: int| 0 <= i < v.old_positions.len() ==> i32::MIN <= signed_tick(#[trigger] v.old_positions[i].0) + d <= i32::MAX
    } else {
        &&& i32::MIN <= signed_tick(m.last_clicked_note_pos.0) + d <= i32::MAX
        &&& tb.channel_shown >= 1
    }
}

/// The ghost notes dragged with the mouse: several notes move together by
/// the snapped travel and the key difference to the pressed note; a single
/// note goes to the pressed note's start plus the snapped travel, at the
/// mouse's key, with the toolbar's channel, gate and velocity.
pub open spec fn dragged_ghosts(v: ToolView, ppq: u16, snap_ratio: (u8, u16), m: NoteEditMouseInfo, tb: ToolbarNote) -> Seq<Note> {
    let d = snapped_travel(ppq, snap_ratio, m);
    if v.flags & NOTE_EDIT_MULTIEDIT != 0 {
        offset_all(v.ghosts, v.old_positions, (d as i32, (m.mouse_midi_pos.1 as int - m.last_clicked_note_pos.1 as int) as i16))
    } else {
        let st = signed_tick(m.last_clicked_note_pos.0) + d;
        with_first_ghost(
            v.ghosts,
            toolbar_note(if st < 0 { 0 } else { st as MIDITick }, clamp_key(m.mouse_midi_pos.1 as int), tb.channel_shown, tb.gate, tb.velocity),
        )
    }
}

/// Dragging note ends can go ahead: lengths are remembered for notes of the
/// current track and each new length stays a signed tick.
pub open spec fn length_drag_ok(v: ToolView, ct: int, ppq: u16, snap_ratio: (u8, u16), m: NoteEditMouseInfo) -> bool {
    let d = snapped_travel(ppq, snap_ratio, m);
    &&& travel_ok(ppq, snap_ratio, m)
    &&& 0 <= ct < v.tracks.len()
    &&& v.old_lengths.len() > 0
    &&& forall|i: int| 0 <= i < v.old_lengths.len() ==> {
        let (id, l) = #[trigger] v.old_lengths[i];
        &&& (id as int) < v.tracks[ct].len()
        &&& i32::MIN <= (l as i32) as int + d <= i32::MAX
    }
}

/// The first ghost note put under the mouse with the toolbar's values.
pub open spec fn ghost_at_mouse(v: ToolView, ppq: u16, snap_ratio: (u8, u16), m: NoteEditMouseInfo, tb: ToolbarNote) -> Seq<Note> {
    let s = snapped(ppq, snap_ratio, signed_tick(m.mouse_midi_pos.0)) as MIDITick;
    with_first_ghost(v.ghosts, toolbar_note(s, m.mouse_midi_pos.1, tb.channel_shown, tb.gate, tb.velocity))
}

/// The tracks with the current track's remembered lengths dragged by the
/// snapped travel.
pub open spec fn lengths_dragged(v: ToolView, ct: int, ppq: u16, snap_ratio: (u8, u16), m: NoteEditMouseInfo) -> Seq<Seq<Note>> {
    let d = snapped_travel(ppq, snap_ratio, m) as i32;
    v.tracks.update(ct, lengths_offset(v.tracks[ct], v.old_lengths, d, v.old_lengths.len() as int))
}

/// The selection box with its second corner at the mouse.
pub open spec fn box_to_mouse(v: ToolView, ppq: u16, snap_ratio: (u8, u16), m: NoteEditMouseInfo) -> (MIDITick, MIDITick, u8, u8) {
    let s = snapped(ppq, snap_ratio, signed_tick(m.mouse_midi_pos.0)) as MIDITick;
    (v.selection_range.0, s, v.selection_range.2, m.mouse_midi_pos.1)
}

/// A mouse move can be handled by the pencil: what the current gesture
/// (drawing a note, dragging notes, dragging note ends) needs holds.
pub open spec fn pencil_move_ok(v: ToolView, ct: int, ppq: u16, snap_ratio: (u8, u16), m: NoteEditMouseInfo, tb: ToolbarNote) -> bool {
    if v.flags & NOTE_EDIT_IS_EDITING != 0 {
        tb.channel_shown >= 1 && snap_ok(ppq, snap_ratio, signed_tick(m.mouse_midi_pos.0))
    } else if v.flags & NOTE_EDIT_DRAGGING != 0 {
        drag_ok(v, ppq, snap_ratio, m, tb)
    } else if v.flags & NOTE_EDIT_LENGTH_CHANGE != 0 {
        length_drag_ok(v, ct, ppq, snap_ratio, m)
    } else {
        true
    }
}

/// A mouse move with the pencil: the new note follows the mouse, or the
/// dragged notes or note ends do.
pub open spec fn pencil_move_spec(v: ToolView, ct: int, ppq: u16, snap_ratio: (u8, u16), m: NoteEditMouseInfo, tb: ToolbarNote) -> ToolView {
    if v.flags & NOTE_EDIT_IS_EDITING != 0 {
        ToolView { ghosts: ghost_at_mouse(v, ppq, snap_ratio, m, tb), ..v }
    } else if v.flags & NOTE_EDIT_DRAGGING != 0 {
        ToolView { ghosts: dragged_ghosts(v, ppq, snap_ratio, m, tb), ..v }
    } else if v.flags & NOTE_EDIT_LENGTH_CHANGE != 0 {
        ToolView { tracks: lengths_dragged(v, ct, ppq, snap_ratio, m), ..v }
    } else {
        v
    }
}

/// A mouse move can be handled by the selector.
pub open spec fn select_move_ok(v: ToolView, ct: int, ppq: u16, snap_ratio: (u8, u16), m: NoteEditMouseInfo, tb: ToolbarNote) -> bool {
    if v.flags & NOTE_EDIT_DRAGGING != 0 {
        drag_ok(v, ppq, snap_ratio, m, tb)
    } else if v.flags & NOTE_EDIT_LENGTH_CHANGE != 0 {
        length_drag_ok(v, ct, ppq, snap_ratio, m)
    } else {
        v.draw_select_box ==> snap_ok(ppq, snap_ratio, signed_tick(m.mouse_midi_pos.0))
    }
}

/// A mouse move with the selector: dragged notes or note ends follow the
/// mouse, or else the selection box does.
pub open spec fn select_move_spec(v: ToolView, ct: int, ppq: u16, snap_ratio: (u8, u16), m: NoteEditMouseInfo, tb: ToolbarNote) -> ToolView {
    if v.flags & NOTE_EDIT_DRAGGING != 0 {
        ToolView { ghosts: dragged_ghosts(v, ppq, snap_ratio, m, tb), ..v }
    } else if v.flags & NOTE_EDIT_LENGTH_CHANGE != 0 {
        ToolView { tracks: lengths_dragged(v, ct, ppq, snap_ratio, m), ..v }
    } else if v.draw_select_box {
        ToolView { selection_range: box_to_mouse(v, ppq, snap_ratio, m), ..v }
    } else {
        v
    }
}

/// Where the ghost notes land when merged into the current track.
pub open spec fn merged_ids(v: ToolView, ct: int) -> Seq<usize> {
    ints_as_usizes(merge_positions(v.tracks[ct], v.ghosts))
}

/// How far each ghost note is from its remembered position.
pub open spec fn ghost_deltas(v: ToolView) -> Seq<(SignedMIDITick, i16)> {
    Seq::new(v.ghosts.len(), |i: int| ghost_delta(v.ghosts[i], v.old_positions[i]))
}

/// The ghost notes merged into the current track.
pub open spec fn ghosts_placed(v: ToolView, ct: int) -> ToolView {
    ToolView { tracks: v.tracks.update(ct, merge_spec(v.tracks[ct], v.ghosts)), ghosts: Seq::empty(), ..v }
}

/// The dragged ghost notes merged back; when several were dragged they
/// become the selection.
pub open spec fn ghosts_moved(v: ToolView, ct: int) -> ToolView {
    ToolView {
        selected: if ghost_deltas(v).len() > 1 { merged_ids(v, ct) } else { v.selected },
        ..ghosts_placed(v, ct)
    }
}

/// The recorded change of the dragged note lengths.
pub open spec fn length_change_of(v: ToolView, ct: int, g: u16) -> ActionView {
    ActionView::LengthChange(
        Seq::new(v.old_lengths.len(), |i: int| v.old_lengths[i].0),
        Seq::new(v.old_lengths.len(), |i: int| length_diff(v.tracks[ct][v.old_lengths[i].0 as int].length, v.old_lengths[i].1)),
        g,
    )
}

/// The ghost notes can be merged into the current track.
pub open spec fn place_ok(v: ToolView, ct: int) -> bool {
    0 <= ct < v.tracks.len() && v.tracks[ct].len() + v.ghosts.len() <= usize::MAX
}

/// The dragged ghost notes can be merged back and their moves recorded.
pub open spec fn move_ok(v: ToolView, ct: int) -> bool {
    &&& place_ok(v, ct)
    &&& v.old_positions.len() >= v.ghosts.len()
    &&& forall|i: int| 0 <= i < v.ghosts.len() ==> i32::MIN <= signed_tick(#[trigger] v.ghosts[i].start) - signed_tick(v.old_positions[i].0) <= i32::MAX
}

/// The dragged note lengths can be recorded.
pub open spec fn length_apply_ok(v: ToolView, ct: int) -> bool {
    &&& 0 <= ct < v.tracks.len()
    &&& forall|i: int| 0 <= i < v.old_lengths.len() ==> {
        let (id, l) = #[trigger] v.old_lengths[i];
        &&& (id as int) < v.tracks[ct].len()
        &&& length_diff_fits(v.tracks[ct][id as int].length, l)
    }
}

/// Releasing the mouse with the pencil can be handled.
pub open spec fn pencil_up_ok(v: ToolView, ct: int) -> bool {
    if v.flags & NOTE_EDIT_IS_EDITING != 0 {
        place_ok(v, ct)
    } else if v.flags & NOTE_EDIT_DRAGGING != 0 {
        move_ok(v, ct)
    } else if v.flags & NOTE_EDIT_LENGTH_CHANGE != 0 {
        length_apply_ok(v, ct)
    } else {
        true
    }
}

/// Releasing the mouse with the pencil: a drawn note is placed, dragged
/// notes are put back where they were dragged, dragged lengths are kept;
/// the gesture's flags are cleared. Returns the new state, what the view has
/// to do and the action recorded.
pub open spec fn pencil_up_spec(v: ToolView, ct: int, g: u16) -> (ToolView, ToolOutcome, Option<ActionView>) {
    if v.flags & NOTE_EDIT_IS_EDITING != 0 {
        (
            ToolView { flags: v.flags & !NOTE_EDIT_IS_EDITING & !NOTE_EDIT_SYNTH_PLAY, ..ghosts_placed(v, ct) },
            ToolOutcome { hide_ghost_notes: true, ..no_outcome() },
            Some(ActionView::PlaceNotes(merged_ids(v, ct), None, g)),
        )
    } else if v.flags & NOTE_EDIT_DRAGGING != 0 {
        (
            ToolView { flags: v.flags & !NOTE_EDIT_DRAGGING & !NOTE_EDIT_SYNTH_PLAY, ..ghosts_moved(v, ct) },
            ToolOutcome { hide_ghost_notes: true, selection_changed: ghost_deltas(v).len() > 1, ..no_outcome() },
            Some(ActionView::NotesMove(merged_ids(v, ct), ghost_deltas(v), g, ghost_deltas(v).len() > 1)),
        )
    } else if v.flags & NOTE_EDIT_LENGTH_CHANGE != 0 {
        (
            ToolView { flags: v.flags & !NOTE_EDIT_LENGTH_CHANGE, old_lengths: Seq::empty(), ..v },
            no_outcome(),
            Some(length_change_of(v, ct, g)),
        )
    } else {
        (v, no_outcome(), None)
    }
}

/// The notes of the current track inside the selection box (ends
/// included).
pub open spec fn boxed_ids(v: ToolView, ct: int) -> Seq<usize> {
    let r = ordered_range(v.selection_range);
    notes_in_range_spec(v.tracks[ct], r.0, r.1, r.2, r.3, true)
}

/// Releasing the mouse with the selector can be handled.
pub open spec fn select_up_ok(v: ToolView, ct: int) -> bool {
    if v.flags & NOTE_EDIT_DRAGGING != 0 {
        move_ok(v, ct)
    } else if v.flags & NOTE_EDIT_LENGTH_CHANGE != 0 {
        length_apply_ok(v, ct)
    } else {
        0 <= ct < v.tracks.len() && range_scan_fits(
            v.tracks[ct],
            ordered_range(v.selection_range).0,
            ordered_range(v.selection_range).1,
        )
    }
}

/// Releasing the mouse with the selector: dragged notes or lengths are
/// kept as with the pencil; otherwise the notes in the selection box become
/// the selection (recorded as selecting them, or as deselecting the old
/// selection when the box is empty).
pub open spec fn select_up_spec(v: ToolView, ct: int, g: u16) -> (ToolView, ToolOutcome, Option<ActionView>) {
    if v.flags & NOTE_EDIT_DRAGGING != 0 {
        (
            ToolView { flags: v.flags & !NOTE_EDIT_DRAGGING, ..ghosts_moved(v, ct) },
            ToolOutcome { hide_ghost_notes: true, selection_changed: ghost_deltas(v).len() > 1, ..no_outcome() },
            Some(ActionView::NotesMove(merged_ids(v, ct), ghost_deltas(v), g, ghost_deltas(v).len() > 1)),
        )
    } else if v.flags & NOTE_EDIT_LENGTH_CHANGE != 0 {
        (
            ToolView { flags: v.flags & !NOTE_EDIT_LENGTH_CHANGE, old_lengths: Seq::empty(), ..v },
            no_outcome(),
            Some(length_change_of(v, ct, g)),
        )
    } else {
        let sel = boxed_ids(v, ct);
        (
            ToolView { draw_select_box: false, selected: sel, ..v },
            ToolOutcome { selection_changed: true, ..no_outcome() },
            if sel.len() > 0 {
                Some(ActionView::Select(sel, g))
            } else if v.selected.len() > 0 {
                Some(ActionView::Deselect(v.selected, g))
            } else {
                None
            },
        )
    }
}

/// Releasing the mouse with the eraser can be handled: the notes in the
/// box can be deleted with the selection kept pointing at the same notes.
pub open spec fn eraser_up_ok(v: ToolView, ct: int) -> bool {
    &&& 0 <= ct < v.tracks.len()
    &&& range_scan_fits(v.tracks[ct], ordered_range(v.selection_range).0, ordered_range(v.selection_range).1)
    &&& boxed_ids(v, ct).len() > 0 ==> remap_from(boxed_ids(v, ct), v.selected, 0, 0) is Some
}

/// Releasing the mouse with the eraser: the notes in the box are deleted.
pub open spec fn eraser_up_spec(v: ToolView, ct: int, g: u16) -> (ToolView, Option<ActionView>) {
    let ids = boxed_ids(v, ct);
    let v1 = ToolView { flags: v.flags & !NOTE_EDIT_ERASING, draw_select_box: false, ..v };
    if ids.len() > 0 {
        let e = extract_spec(v.tracks[ct], ids);
        (
            ToolView { tracks: v.tracks.update(ct, e.1), selected: remap_from(ids, v.selected, 0, 0)->0, ..v1 },
            Some(ActionView::DeleteNotes(ids, Some(e.0), g)),
        )
    } else {
        (v1, None)
    }
}

/// `after` is `before` with `a` recorded, or unchanged when there is nothing
/// to record.
pub open spec fn recorded(after: &EditorActions, before: &EditorActions, a: Option<ActionView>) -> bool {
    match a {
        Some(x) => after.registered_from(before, x),
        None => *after == *before,
    }
}

/// Pressing on note `c` edits the whole selection: it holds `c` and more.
pub open spec fn is_multi(sel: Seq<usize>, c: usize) -> bool {
    sel.len() > 1 && sel.contains(c)
}

/// The notes a press on `c` edits: the selection, or `c` alone.
pub open spec fn pressed_ids(sel: Seq<usize>, c: usize, whole_selection: bool) -> Seq<usize> {
    if whole_selection { sel } else { seq![c] }
}

/// The notes at `ids` with their lengths.
pub open spec fn lengths_of(t: Seq<Note>, ids: Seq<usize>) -> Seq<(usize, MIDITick)> {
    Seq::new(ids.len(), |i: int| (ids[i], t[ids[i] as int].length))
}

/// The positions (start, key) of the notes at `ids`.
pub open spec fn positions_of(t: Seq<Note>, ids: Seq<usize>) -> Seq<(MIDITick, u8)> {
    Seq::new(ids.len(), |i: int| (t[ids[i] as int].start, t[ids[i] as int].key))
}

/// A press on note `c` picks up what it edits: at the note's end the
/// lengths are remembered; elsewhere the positions are remembered and the
/// notes become ghost notes (the selection, or `c` alone after clearing the
/// selection).
pub open spec fn pick_up(v: ToolView, ct: int, c: usize, whole_selection: bool, at_end: bool, flags: u16) -> ToolView {
    let t = v.tracks[ct];
    let ids = pressed_ids(v.selected, c, whole_selection);
    if at_end {
        ToolView { flags, old_lengths: lengths_of(t, ids), ..v }
    } else if whole_selection {
        let e = extract_spec(t, v.selected);
        ToolView {
            flags,
            old_positions: positions_of(t, ids),
            ghosts: e.0,
            tracks: v.tracks.update(ct, e.1),
            selected: Seq::empty(),
            ..v
        }
    } else {
        ToolView {
            flags,
            old_positions: positions_of(t, ids),
            ghosts: with_first_ghost(v.ghosts, t[c as int]),
            tracks: v.tracks.update(ct, t.remove(c as int)),
            selected: Seq::empty(),
            ..v
        }
    }
}

/// A press with the pencil can be handled: on a note, the note (and the
/// selection it edits) lies in the current track; elsewhere a new note can
/// be drawn under the mouse.
pub open spec fn pencil_down_ok(v: ToolView, ct: int, ppq: u16, snap_ratio: (u8, u16), m: NoteEditMouseInfo, tb: ToolbarNote) -> bool {
    &&& 0 <= ct < v.tracks.len()
    &&& match m.last_clicked_note_idx {
        Some(c) => (c as int) < v.tracks[ct].len() && (is_multi(v.selected, c) ==> all_below(v.selected, v.tracks[ct].len() as int)),
        None => tb.channel_shown >= 1 && snap_ok(ppq, snap_ratio, signed_tick(m.mouse_midi_pos.0)),
    }
}

/// A press with the pencil: on a note, the note (or the selection holding
/// it) is picked up to drag it or its end, and the toolbar takes the note's
/// values; elsewhere the selection is cleared and a new note starts under
/// the mouse.
pub open spec fn pencil_down_spec(v: ToolView, ct: int, ppq: u16, snap_ratio: (u8, u16), m: NoteEditMouseInfo, tb: ToolbarNote) -> (ToolView, ToolOutcome) {
    match m.last_clicked_note_idx {
        Some(c) => {
            let multi = is_multi(v.selected, c);
            let v1 = ToolView { selected: if multi { v.selected } else { Seq::empty() }, ..v };
            let f1 = v.flags & !(NOTE_EDIT_LENGTH_CHANGE | NOTE_EDIT_DRAGGING | NOTE_EDIT_MULTIEDIT);
            let f2 = if m.is_at_note_end { f1 | NOTE_EDIT_LENGTH_CHANGE } else { f1 | NOTE_EDIT_DRAGGING | NOTE_EDIT_SYNTH_PLAY };
            let f3 = if multi { f2 | NOTE_EDIT_MULTIEDIT } else { f2 };
            (
                pick_up(v1, ct, c, multi, m.is_at_note_end, f3),
                ToolOutcome {
                    show_ghost_notes: !m.is_at_note_end,
                    hide_ghost_notes: false,
                    selection_changed: !multi,
                    toolbar_from_note: Some(v.tracks[ct][c as int]),
                },
            )
        },
        None => (
            ToolView {
                selected: Seq::empty(),
                ghosts: ghost_at_mouse(v, ppq, snap_ratio, m, tb),
                flags: v.flags | NOTE_EDIT_IS_EDITING | NOTE_EDIT_SYNTH_PLAY,
                ..v
            },
            ToolOutcome { show_ghost_notes: true, hide_ghost_notes: false, selection_changed: true, toolbar_from_note: None },
        ),
    }
}

/// A press with the selector can be handled.
pub open spec fn select_down_ok(v: ToolView, ct: int, ppq: u16, snap_ratio: (u8, u16), m: NoteEditMouseInfo) -> bool {
    &&& 0 <= ct < v.tracks.len()
    &&& match m.last_clicked_note_idx {
        Some(c) => (c as int) < v.tracks[ct].len() && (v.selected.contains(c) ==> all_below(v.selected, v.tracks[ct].len() as int)),
        None => snap_ok(ppq, snap_ratio, signed_tick(m.mouse_midi_pos.0)),
    }
}

/// A press with the selector: on a note, the note (or the selection when it
/// holds the note) is picked up to drag it or its end; elsewhere a
/// selection box starts at the mouse.
pub open spec fn select_down_spec(v: ToolView, ct: int, ppq: u16, snap_ratio: (u8, u16), m: NoteEditMouseInfo) -> (ToolView, ToolOutcome) {
    let f1 = v.flags & !(NOTE_EDIT_DRAGGING | NOTE_EDIT_LENGTH_CHANGE | NOTE_EDIT_MULTIEDIT);
    match m.last_clicked_note_idx {
        Some(c) => {
            let modify = v.selected.contains(c);
            let f2 = if modify { f1 | NOTE_EDIT_MULTIEDIT } else { f1 };
            let f3 = if m.is_at_note_end { f2 | NOTE_EDIT_LENGTH_CHANGE } else { f2 | NOTE_EDIT_DRAGGING };
            (
                pick_up(v, ct, c, modify, m.is_at_note_end, f3),
                ToolOutcome {
                    show_ghost_notes: true,
                    hide_ghost_notes: false,
                    selection_changed: !m.is_at_note_end && !modify,
                    toolbar_from_note: None,
                },
            )
        },
        None => {
            let s = snapped(ppq, snap_ratio, signed_tick(m.mouse_midi_pos.0)) as MIDITick;
            (
                ToolView {
                    flags: f1,
                    selection_range: (s, s, m.mouse_midi_pos.1, m.mouse_midi_pos.1),
                    draw_select_box: true,
                    ..v
                },
                no_outcome(),
            )
        },
    }
}

/// A press with the eraser can be handled.
pub open spec fn eraser_down_ok(v: ToolView, ct: int, ppq: u16, snap_ratio: (u8, u16), m: NoteEditMouseInfo) -> bool {
    &&& 0 <= ct < v.tracks.len()
    &&& match m.last_clicked_note_idx {
        Some(c) => remap_from(seq![c], v.selected, 0, 0) is Some,
        None => snap_ok(ppq, snap_ratio, signed_tick(m.mouse_midi_pos.0)),
    }
}

/// A press with the eraser: a note under the mouse is deleted at once;
/// elsewhere an erasing box starts at the mouse.
pub open spec fn eraser_down_spec(v: ToolView, ct: int, ppq: u16, snap_ratio: (u8, u16), m: NoteEditMouseInfo, g: u16) -> (ToolView, Option<ActionView>) {
    match m.last_clicked_note_idx {
        Some(c) => {
            let e = extract_spec(v.tracks[ct], seq![c]);
            (
                ToolView { tracks: v.tracks.update(ct, e.1), selected: remap_from(seq![c], v.selected, 0, 0)->0, ..v },
                Some(ActionView::DeleteNotes(seq![c], Some(e.0), g)),
            )
        },
        None => {
            let s = snapped(ppq, snap_ratio, signed_tick(m.mouse_midi_pos.0)) as MIDITick;
            (
                ToolView {
                    flags: v.flags | NOTE_EDIT_ERASING,
                    selection_range: (s, s, m.mouse_midi_pos.1, m.mouse_midi_pos.1),
                    draw_select_box: true,
                    ..v
                },
                None,
            )
        },
    }
}

/// The mouse info once the mouse is pressed: the note under it (with its
/// position in `t`) and the mouse position are remembered.
pub open spec fn clicked_mouse(m: NoteEditMouseInfo, t: Seq<Note>) -> NoteEditMouseInfo {
    NoteEditMouseInfo {
        last_clicked_note_idx: m.note_hover_idx,
        last_mouse_click_pos: m.mouse_midi_pos,
        last_clicked_note_pos: match m.note_hover_idx {
            Some(i) => (t[i as int].start, t[i as int].key),
            None => m.last_clicked_note_pos,
        },
        ..m
    }
}

/// A press reaches the tools: the mouse is not over the interface and no
/// dialog is open.
pub open spec fn press_reaches_tools(flags: u16) -> bool {
    flags & NOTE_EDIT_MOUSE_OVER_UI == 0 && flags & NOTE_EDIT_ANY_DIALOG_OPEN == 0
}

/// A press with `tool` can be handled, once the mouse info is updated.
pub open spec fn mouse_down_ok(v: ToolView, ct: int, ppq: u16, snap_ratio: (u8, u16), tool: EditorTool, m: NoteEditMouseInfo, tb: ToolbarNote) -> bool {
    match tool {
        EditorTool::Pencil => pencil_down_ok(v, ct, ppq, snap_ratio, m, tb),
        EditorTool::Selector => select_down_ok(v, ct, ppq, snap_ratio, m),
        EditorTool::Eraser => eraser_down_ok(v, ct, ppq, snap_ratio, m),
    }
}

/// A press with `tool`: the new state, what the view does and the action
/// recorded.
pub open spec fn mouse_down_spec(v: ToolView, ct: int, ppq: u16, snap_ratio: (u8, u16), tool: EditorTool, m: NoteEditMouseInfo, tb: ToolbarNote, g: u16) -> (ToolView, ToolOutcome, Option<ActionView>) {
    match tool {
        EditorTool::Pencil => {
            let r = pencil_down_spec(v, ct, ppq, snap_ratio, m, tb);
            (r.0, r.1, None)
        },
        EditorTool::Selector => {
            let r = select_down_spec(v, ct, ppq, snap_ratio, m);
            (r.0, r.1, None)
        },
        EditorTool::Eraser => {
            let r = eraser_down_spec(v, ct, ppq, snap_ratio, m, g);
            (r.0, no_outcome(), r.1)
        },
    }
}

/// A release with `tool` can be handled.
pub open spec fn mouse_up_ok(v: ToolView, ct: int, tool: EditorTool) -> bool {
    match tool {
        EditorTool::Pencil => pencil_up_ok(v, ct),
        EditorTool::Selector => select_up_ok(v, ct),
        EditorTool::Eraser => eraser_up_ok(v, ct),
    }
}

/// A release with `tool`.
pub open spec fn mouse_up_spec(v: ToolView, ct: int, tool: EditorTool, g: u16) -> (ToolView, ToolOutcome, Option<ActionView>) {
    match tool {
        EditorTool::Pencil => pencil_up_spec(v, ct, g),
        EditorTool::Selector => select_up_spec(v, ct, g),
        EditorTool::Eraser => {
            let r = eraser_up_spec(v, ct, g);
            (r.0, no_outcome(), r.1)
        },
    }
}

/// A move with `tool` can be handled.
pub open spec fn mouse_move_ok(v: ToolView, ct: int, ppq: u16, snap_ratio: (u8, u16), tool: EditorTool, m: NoteEditMouseInfo, tb: ToolbarNote) -> bool {
    match tool {
        EditorTool::Pencil => pencil_move_ok(v, ct, ppq, snap_ratio, m, tb),
        EditorTool::Selector => select_move_ok(v, ct, ppq, snap_ratio, m, tb),
        EditorTool::Eraser => v.draw_select_box ==> snap_ok(ppq, snap_ratio, signed_tick(m.mouse_midi_pos.0)),
    }
}

/// A move with `tool`.
pub open spec fn mouse_move_spec(v: ToolView, ct: int, ppq: u16, snap_ratio: (u8, u16), tool: EditorTool, m: NoteEditMouseInfo, tb: ToolbarNote) -> ToolView {
    match tool {
        EditorTool::Pencil => pencil_move_spec(v, ct, ppq, snap_ratio, m, tb),
        EditorTool::Selector => select_move_spec(v, ct, ppq, snap_ratio, m, tb),
        EditorTool::Eraser => if v.draw_select_box {
            ToolView { selection_range: box_to_mouse(v, ppq, snap_ratio, m), ..v }
        } else {
            v
        },
    }
}

/// Testing both "over the interface" and "dialog open" at once.
proof fn lemma_press_flags(f: u16)
    ensures
        (f & (NOTE_EDIT_ANY_DIALOG_OPEN | NOTE_EDIT_MOUSE_OVER_UI) == 0) == press_reaches_tools(f),
        (f & (NOTE_EDIT_MOUSE_OVER_UI | NOTE_EDIT_ANY_DIALOG_OPEN) == 0) == press_reaches_tools(f),
{
    assert((f & (0x8u16 | 0x1u16) == 0) == (f & 0x1u16 == 0 && f & 0x8u16 == 0)) by (bit_vector);
    assert((f & (0x1u16 | 0x8u16) == 0) == (f & 0x1u16 == 0 && f & 0x8u16 == 0)) by (bit_vector);
}

/// Whether `x` is among `ids`.
fn ids_contain(ids: &Vec<usize>, x: usize) -> (r: bool)
    ensures
        r == ids@.contains(x),
{
    let n = ids.len();
    for i in 0..n
        invariant
            n == ids@.len(),
            forall|k: int| 0 <= k < i ==> ids@[k] != x,
    {
        if ids[i] == x {
            assert(ids@[i as int] == x);
            return true;
        }
    }
    false
}

/// A copy of a list of indices.
fn copy_ids(ids: &Vec<usize>) -> (r: Vec<usize>)
    ensures
        r@ == ids@,
{
    let mut r: Vec<usize> = Vec::with_capacity(ids.len());
    for i in 0..ids.len()
        invariant
            r@ == ids@.subrange(0, i as int),
    {
        r.push(ids[i]);
        assert(r@ =~= ids@.subrange(0, i + 1));
    }
    assert(r@ =~= ids@);
    r
}

impl NoteEditing {
    pub open spec fn tool_view(&self) -> ToolView {
        ToolView {
            tracks: tracks_view(self.notes@),
            ghosts: self.ghost_notes@,
            selected: self.selected_note_ids@,
            old_positions: self.note_old_positions@,
            old_lengths: self.note_old_lengths@,
            flags: self.flags,
            selection_range: self.selection_range,
            draw_select_box: self.draw_select_box,
        }
    }

    /// The track count, the clipboard, the resolution and the current track
    /// are as in `other`.
    pub open spec fn same_setup(&self, other: &NoteEditing) -> bool {
        &&& self.notes@.len() == other.notes@.len()
        &&& self.notes_clipboard@ == other.notes_clipboard@
        &&& self.ppq == other.ppq
        &&& self.curr_track == other.curr_track
    }

    /// As [`Self::same_setup`], and the end of the editable area is as in
    /// `other` too.
    pub open spec fn same_rest(&self, other: &NoteEditing) -> bool {
        &&& self.same_setup(other)
        &&& self.latest_note_start == other.latest_note_start
    }

    /// Starts a selection box at `start_pos`, its tick snapped to the grid.
    pub fn init_selection_box(&mut self, start_pos: (MIDITick, u8), snap_ratio: (u8, u16))
        requires
            snap_ok(old(self).ppq, snap_ratio, signed_tick(start_pos.0)),
        ensures
            ({
                let s = snapped(old(self).ppq, snap_ratio, signed_tick(start_pos.0)) as MIDITick;
                final(self).tool_view() == ToolView {
                    selection_range: (s, s, start_pos.1, start_pos.1),
                    draw_select_box: true,
                    ..old(self).tool_view()
                }
            }),
            final(self).same_rest(old(self)),
    {
        let tick: SignedMIDITick = #[verifier::truncate] (start_pos.0 as SignedMIDITick);
        let snapped_tick = self.snap_tick(tick, snap_ratio) as MIDITick;
        self.selection_range = (snapped_tick, snapped_tick, start_pos.1, start_pos.1);
        self.draw_select_box = true;
    }

    /// Moves the selection box's second corner to `new_pos`, its tick
    /// snapped to the grid.
    pub fn update_selection_box(&mut self, new_pos: (MIDITick, u8), snap_ratio: (u8, u16))
        requires
            snap_ok(old(self).ppq, snap_ratio, signed_tick(new_pos.0)),
        ensures
            ({
                let s = snapped(old(self).ppq, snap_ratio, signed_tick(new_pos.0)) as MIDITick;
                let r = old(self).selection_range;
                final(self).tool_view() == ToolView { selection_range: (r.0, s, r.2, new_pos.1), ..old(self).tool_view() }
            }),
            final(self).same_rest(old(self)),
    {
        let tick: SignedMIDITick = #[verifier::truncate] (new_pos.0 as SignedMIDITick);
        let snapped_tick = self.snap_tick(tick, snap_ratio) as MIDITick;
        self.selection_range.1 = snapped_tick;
        self.selection_range.3 = new_pos.1;
    }

    /// The selection box as (min tick, max tick, min key, max key).
    pub fn get_selection_range(&self) -> (r: (MIDITick, MIDITick, u8, u8))
        ensures
            r == ordered_range(self.selection_range),
    {
        let (min_tick, max_tick) = if self.selection_range.0 > self.selection_range.1 {
            (self.selection_range.1, self.selection_range.0)
        } else {
            (self.selection_range.0, self.selection_range.1)
        };
        let (min_key, max_key) = if self.selection_range.2 > self.selection_range.3 {
            (self.selection_range.3, self.selection_range.2)
        } else {
            (self.selection_range.2, self.selection_range.3)
        };
        (min_tick, max_tick, min_key, max_key)
    }

    /// Selects nothing.
    pub fn clear_selected(&mut self)
        ensures
            final(self).tool_view() == (ToolView { selected: Seq::empty(), ..old(self).tool_view() }),
            final(self).same_rest(old(self)),
    {
        self.selected_note_ids.clear();
    }

    /// Remembers what the mouse is pressed on: the note under it (with its
    /// position) and where it is.
    pub fn update_clicked_note(&self, mouse: &mut NoteEditMouseInfo)
        requires
            (self.curr_track as int) < self.notes@.len(),
            (old(mouse).note_hover_idx matches Some(i) ==> (i as int) < self.notes@[self.curr_track as int]@.len()),
        ensures
            *final(mouse) == clicked_mouse(*old(mouse), self.notes@[self.curr_track as int]@),
    {
        mouse.last_clicked_note_idx = mouse.note_hover_idx;
        mouse.last_mouse_click_pos = mouse.mouse_midi_pos;
        if let Some(clicked_idx) = mouse.last_clicked_note_idx {
            let note = self.notes[self.curr_track as usize][clicked_idx];
            mouse.last_clicked_note_pos = (note.start, note.key);
        }
    }

    /// Puts the first ghost note under the mouse, its start snapped to the
    /// grid, with the toolbar's channel, gate and velocity.
    pub fn update_first_ghost_note(&mut self, mouse: &NoteEditMouseInfo, toolbar: ToolbarNote, snap_ratio: (u8, u16))
        requires
            toolbar.channel_shown >= 1,
            snap_ok(old(self).ppq, snap_ratio, signed_tick(mouse.mouse_midi_pos.0)),
        ensures
            ({
                let s = snapped(old(self).ppq, snap_ratio, signed_tick(mouse.mouse_midi_pos.0)) as MIDITick;
                let n = toolbar_note(s, mouse.mouse_midi_pos.1, toolbar.channel_shown, toolbar.gate, toolbar.velocity);
                final(self).tool_view() == ToolView { ghosts: with_first_ghost(old(self).ghost_notes@, n), ..old(self).tool_view() }
            }),
            final(self).same_rest(old(self)),
    {
        let (mouse_tick, mouse_key) = mouse.mouse_midi_pos;
        let tick: SignedMIDITick = #[verifier::truncate] (mouse_tick as SignedMIDITick);
        let gn_start = self.snap_tick(tick, snap_ratio) as MIDITick;
        self.set_first_ghost_note_pos(gn_start, mouse_key, toolbar.channel_shown, toolbar.gate, toolbar.velocity);
    }

    /// Drags the ghost notes with the mouse.
    pub fn offset_ghost_notes_tmp(&mut self, mouse: &NoteEditMouseInfo, toolbar: ToolbarNote, snap_ratio: (u8, u16))
        requires
            drag_ok(old(self).tool_view(), old(self).ppq, snap_ratio, *mouse, toolbar),
        ensures
            final(self).tool_view() == (ToolView {
                ghosts: dragged_ghosts(old(self).tool_view(), old(self).ppq, snap_ratio, *mouse, toolbar),
                ..old(self).tool_view()
            }),
            final(self).same_rest(old(self)),
    {
        let (clicked_note_start, clicked_note_key) = mouse.last_clicked_note_pos;
        let now: SignedMIDITick = #[verifier::truncate] (mouse.mouse_midi_pos.0 as SignedMIDITick);
        let then: SignedMIDITick = #[verifier::truncate] (mouse.last_mouse_click_pos.0 as SignedMIDITick);
        let mouse_delta_ticks = now - then;
        let snapped_delta = self.snap_tick(mouse_delta_ticks, snap_ratio);
        if self.get_flag(NOTE_EDIT_MULTIEDIT) {
            let key_offs: i16 = mouse.mouse_midi_pos.1 as i16 - clicked_note_key as i16;
            let ghost g0 = self.ghost_notes@;
            self.offset_ghost_notes((snapped_delta, key_offs));
            assert(self.ghost_notes@ =~= offset_all(g0, self.note_old_positions@, (snapped_delta, key_offs)));
        } else {
            let start: SignedMIDITick = #[verifier::truncate] (clicked_note_start as SignedMIDITick);
            let ghost_start_signed = start + snapped_delta;
            let ghost_start: MIDITick = if ghost_start_signed < 0 { 0 } else { ghost_start_signed as MIDITick };
            let key_offs: i16 = clicked_note_key as i16 - mouse.last_clicked_note_pos.1 as i16;
            let ghost_key_signed: i16 = mouse.mouse_midi_pos.1 as i16 + key_offs;
            let ghost_key: u8 = if ghost_key_signed < 0 {
                0
            } else if ghost_key_signed > 127 {
                127
            } else {
                ghost_key_signed as u8
            };
            self.set_first_ghost_note_pos(ghost_start, ghost_key, toolbar.channel_shown, toolbar.gate, toolbar.velocity);
        }
    }

    /// Drags the ends of the notes whose lengths were remembered.
    pub fn offset_notes_length_tmp(&mut self, mouse: &NoteEditMouseInfo, snap_ratio: (u8, u16))
        requires
            length_drag_ok(old(self).tool_view(), old(self).curr_track as int, old(self).ppq, snap_ratio, *mouse),
        ensures
            ({
                let v = old(self).tool_view();
                let ct = old(self).curr_track as int;
                let d = snapped_travel(old(self).ppq, snap_ratio, *mouse) as i32;
                final(self).tool_view() == (ToolView {
                    tracks: v.tracks.update(ct, lengths_offset(v.tracks[ct], v.old_lengths, d, v.old_lengths.len() as int)),
                    ..v
                })
            }),
            final(self).same_rest(old(self)),
    {
        let now: SignedMIDITick = #[verifier::truncate] (mouse.mouse_midi_pos.0 as SignedMIDITick);
        let then: SignedMIDITick = #[verifier::truncate] (mouse.last_mouse_click_pos.0 as SignedMIDITick);
        let mouse_delta_ticks = now - then;
        let snapped_delta = self.snap_tick(mouse_delta_ticks, snap_ratio);
        proof {
            assert(self.notes@[self.curr_track as int]@ == tracks_view(self.notes@)[self.curr_track as int]);
        }
        let ghost before = self.notes@;
        self.offset_note_lengths(snapped_delta);
        assert(tracks_view(self.notes@).len() == tracks_view(before).len());
    }

    /// A mouse move with the pencil.
    pub fn pencil_mouse_move(&mut self, mouse: &NoteEditMouseInfo, toolbar: ToolbarNote, snap_ratio: (u8, u16))
        requires
            pencil_move_ok(old(self).tool_view(), old(self).curr_track as int, old(self).ppq, snap_ratio, *mouse, toolbar),
        ensures
            final(self).tool_view() == pencil_move_spec(old(self).tool_view(), old(self).curr_track as int, old(self).ppq, snap_ratio, *mouse, toolbar),
            final(self).same_rest(old(self)),
    {
        if self.get_flag(NOTE_EDIT_IS_EDITING) {
            self.update_first_ghost_note(mouse, toolbar, snap_ratio);
        } else if self.get_flag(NOTE_EDIT_DRAGGING) {
            self.offset_ghost_notes_tmp(mouse, toolbar, snap_ratio);
        } else if self.get_flag(NOTE_EDIT_LENGTH_CHANGE) {
            self.offset_notes_length_tmp(mouse, snap_ratio);
        }
    }

    /// A mouse move with the selector.
    pub fn select_mouse_move(&mut self, mouse: &NoteEditMouseInfo, toolbar: ToolbarNote, snap_ratio: (u8, u16))
        requires
            select_move_ok(old(self).tool_view(), old(self).curr_track as int, old(self).ppq, snap_ratio, *mouse, toolbar),
        ensures
            final(self).tool_view() == select_move_spec(old(self).tool_view(), old(self).curr_track as int, old(self).ppq, snap_ratio, *mouse, toolbar),
            final(self).same_rest(old(self)),
    {
        if self.get_flag(NOTE_EDIT_DRAGGING) {
            self.offset_ghost_notes_tmp(mouse, toolbar, snap_ratio);
        } else if self.get_flag(NOTE_EDIT_LENGTH_CHANGE) {
            self.offset_notes_length_tmp(mouse, snap_ratio);
        } else if self.draw_select_box {
            self.update_selection_box(mouse.mouse_midi_pos, snap_ratio);
        }
    }

    /// A mouse move with the eraser: the selection box follows the mouse.
    pub fn eraser_mouse_move(&mut self, mouse: &NoteEditMouseInfo, snap_ratio: (u8, u16))
        requires
            old(self).draw_select_box ==> snap_ok(old(self).ppq, snap_ratio, signed_tick(mouse.mouse_midi_pos.0)),
        ensures
            final(self).tool_view() == (if old(self).draw_select_box {
                ToolView { selection_range: box_to_mouse(old(self).tool_view(), old(self).ppq, snap_ratio, *mouse), ..old(self).tool_view() }
            } else {
                old(self).tool_view()
            }),
            final(self).same_rest(old(self)),
    {
        if self.draw_select_box {
            self.update_selection_box(mouse.mouse_midi_pos, snap_ratio);
        }
    }

    /// Releases the mouse with the pencil.
    pub fn pencil_mouse_up(&mut self, editor_actions: &mut EditorActions) -> (r: ToolOutcome)
        requires
            pencil_up_ok(old(self).tool_view(), old(self).curr_track as int),
            old(editor_actions).wf(),
            old(editor_actions).max_actions_spec() > 0,
        ensures
            ({
                let res = pencil_up_spec(old(self).tool_view(), old(self).curr_track as int, old(self).curr_track);
                &&& final(self).tool_view() == res.0
                &&& r == res.1
                &&& recorded(final(editor_actions), old(editor_actions), res.2)
            }),
            final(self).same_rest(old(self)),
    {
        let ghost v = self.tool_view();
        let ghost ct = self.curr_track as int;
        let ghost n0 = self.notes@;
        if self.get_flag(NOTE_EDIT_IS_EDITING) {
            self.apply_ghost_place_notes(editor_actions);
            assert(tracks_view(self.notes@).len() == tracks_view(n0).len());
            self.disable_flag(NOTE_EDIT_IS_EDITING);
            self.disable_flag(NOTE_EDIT_SYNTH_PLAY);
            proof {
                assert(self.ghost_notes@ =~= Seq::<Note>::empty());
            }
            ToolOutcome { show_ghost_notes: false, hide_ghost_notes: true, selection_changed: false, toolbar_from_note: None }
        } else if self.get_flag(NOTE_EDIT_DRAGGING) {
            let deltas = self.get_ghost_notes_pos_delta();
            assert(deltas@ =~= ghost_deltas(v));
            let several = deltas.len() > 1;
            self.apply_ghost_move_notes(deltas, editor_actions);
            assert(tracks_view(self.notes@).len() == tracks_view(n0).len());
            self.disable_flag(NOTE_EDIT_DRAGGING);
            self.disable_flag(NOTE_EDIT_SYNTH_PLAY);
            proof {
                assert(self.ghost_notes@ =~= Seq::<Note>::empty());
            }
            ToolOutcome { show_ghost_notes: false, hide_ghost_notes: true, selection_changed: several, toolbar_from_note: None }
        } else if self.get_flag(NOTE_EDIT_LENGTH_CHANGE) {
            self.apply_note_length_change(editor_actions);
            self.disable_flag(NOTE_EDIT_LENGTH_CHANGE);
            proof {
                assert(self.note_old_lengths@ =~= Seq::<(usize, MIDITick)>::empty());
            }
            ToolOutcome { show_ghost_notes: false, hide_ghost_notes: false, selection_changed: false, toolbar_from_note: None }
        } else {
            ToolOutcome { show_ghost_notes: false, hide_ghost_notes: false, selection_changed: false, toolbar_from_note: None }
        }
    }

    /// Releases the mouse with the selector.
    pub fn select_mouse_up(&mut self, editor_actions: &mut EditorActions) -> (r: ToolOutcome)
        requires
            select_up_ok(old(self).tool_view(), old(self).curr_track as int),
            old(editor_actions).wf(),
            old(editor_actions).max_actions_spec() > 0,
        ensures
            ({
                let res = select_up_spec(old(self).tool_view(), old(self).curr_track as int, old(self).curr_track);
                &&& final(self).tool_view() == res.0
                &&& r == res.1
                &&& recorded(final(editor_actions), old(editor_actions), res.2)
            }),
            final(self).same_rest(old(self)),
    {
        let ghost v = self.tool_view();
        let ghost n0 = self.notes@;
        if self.get_flag(NOTE_EDIT_DRAGGING) {
            let deltas = self.get_ghost_notes_pos_delta();
            assert(deltas@ =~= ghost_deltas(v));
            let several = deltas.len() > 1;
            self.apply_ghost_move_notes(deltas, editor_actions);
            assert(tracks_view(self.notes@).len() == tracks_view(n0).len());
            self.disable_flag(NOTE_EDIT_DRAGGING);
            proof {
                assert(self.ghost_notes@ =~= Seq::<Note>::empty());
            }
            ToolOutcome { show_ghost_notes: false, hide_ghost_notes: true, selection_changed: several, toolbar_from_note: None }
        } else if self.get_flag(NOTE_EDIT_LENGTH_CHANGE) {
            self.apply_note_length_change(editor_actions);
            self.disable_flag(NOTE_EDIT_LENGTH_CHANGE);
            proof {
                assert(self.note_old_lengths@ =~= Seq::<(usize, MIDITick)>::empty());
            }
            ToolOutcome { show_ghost_notes: false, hide_ghost_notes: false, selection_changed: false, toolbar_from_note: None }
        } else {
            self.draw_select_box = false;
            let (min_tick, max_tick, min_key, max_key) = self.get_selection_range();
            let curr_track = self.curr_track;
            proof {
                assert(self.notes@[curr_track as int]@ == v.tracks[curr_track as int]);
            }
            let selected = get_notes_in_range(&self.notes[curr_track as usize], min_tick, max_tick, min_key, max_key, true);
            if selected.len() > 0 {
                let recorded_ids = copy_ids(&selected);
                editor_actions.register_action(EditorAction::Select(recorded_ids, curr_track));
            } else if self.selected_note_ids.len() > 0 {
                let mut old_sel: Vec<usize> = Vec::new();
                std::mem::swap(&mut old_sel, &mut self.selected_note_ids);
                editor_actions.register_action(EditorAction::Deselect(old_sel, curr_track));
            }
            self.selected_note_ids = selected;
            ToolOutcome { show_ghost_notes: false, hide_ghost_notes: false, selection_changed: true, toolbar_from_note: None }
        }
    }

    /// Releases the mouse with the eraser: the notes in the box are deleted.
    pub fn eraser_mouse_up(&mut self, editor_actions: &mut EditorActions)
        requires
            eraser_up_ok(old(self).tool_view(), old(self).curr_track as int),
            old(editor_actions).wf(),
            old(editor_actions).max_actions_spec() > 0,
        ensures
            ({
                let res = eraser_up_spec(old(self).tool_view(), old(self).curr_track as int, old(self).curr_track);
                &&& final(self).tool_view() == res.0
                &&& recorded(final(editor_actions), old(editor_actions), res.1)
            }),
            final(self).same_rest(old(self)),
    {
        let ghost v = self.tool_view();
        let ghost n0 = self.notes@;
        self.flags = self.flags & !NOTE_EDIT_ERASING;
        self.draw_select_box = false;
        let (min_tick, max_tick, min_key, max_key) = self.get_selection_range();
        let curr_track = self.curr_track;
        proof {
            assert(self.notes@[curr_track as int]@ == v.tracks[curr_track as int]);
        }
        let selected = get_notes_in_range(&self.notes[curr_track as usize], min_tick, max_tick, min_key, max_key, true);
        if selected.len() > 0 {
            self.delete_notes(selected, editor_actions);
            assert(tracks_view(self.notes@).len() == tracks_view(n0).len());
        }
    }

    /// The pick-up part of a press on note `c`.
    fn pick_up_note(&mut self, c: usize, whole_selection: bool, at_end: bool)
        requires
            (old(self).curr_track as int) < old(self).notes@.len(),
            (c as int) < old(self).notes@[old(self).curr_track as int]@.len(),
            whole_selection ==> all_below(old(self).selected_note_ids@, old(self).notes@[old(self).curr_track as int]@.len() as int),
        ensures
            final(self).tool_view() == pick_up(old(self).tool_view(), old(self).curr_track as int, c, whole_selection, at_end, old(self).flags),
            final(self).same_rest(old(self)),
    {
        let ghost v = self.tool_view();
        let ghost n0 = self.notes@;
        let ids: Vec<usize> = if whole_selection { copy_ids(&self.selected_note_ids) } else { vec![c] };
        proof {
            assert(ids@ =~= pressed_ids(v.selected, c, whole_selection));
            assert(self.notes@[self.curr_track as int]@ == v.tracks[self.curr_track as int]);
        }
        if at_end {
            let lengths = self.get_note_lengths(&ids);
            assert(lengths@ =~= lengths_of(v.tracks[self.curr_track as int], ids@));
            self.note_old_lengths = lengths;
        } else {
            let positions = self.get_note_positions(&ids);
            assert(positions@ =~= positions_of(v.tracks[self.curr_track as int], ids@));
            self.note_old_positions = positions;
            if whole_selection {
                self.selected_notes_to_ghost_notes();
                assert(self.selected_note_ids@ =~= Seq::<usize>::empty());
            } else {
                self.clear_selected();
                self.note_id_as_first_ghost_note(c);
                assert(self.selected_note_ids@ =~= Seq::<usize>::empty());
            }
            assert(tracks_view(self.notes@).len() == tracks_view(n0).len());
        }
    }

    /// A press with the pencil.
    pub fn pencil_mouse_down(&mut self, mouse: &NoteEditMouseInfo, toolbar: ToolbarNote, snap_ratio: (u8, u16)) -> (r: ToolOutcome)
        requires
            pencil_down_ok(old(self).tool_view(), old(self).curr_track as int, old(self).ppq, snap_ratio, *mouse, toolbar),
        ensures
            ({
                let res = pencil_down_spec(old(self).tool_view(), old(self).curr_track as int, old(self).ppq, snap_ratio, *mouse, toolbar);
                final(self).tool_view() == res.0 && r == res.1
            }),
            final(self).same_rest(old(self)),
    {
        if let Some(clicked_idx) = mouse.last_clicked_note_idx {
            let note = self.notes[self.curr_track as usize][clicked_idx];
            self.flags = self.flags & !(NOTE_EDIT_LENGTH_CHANGE | NOTE_EDIT_DRAGGING | NOTE_EDIT_MULTIEDIT);
            let is_multi = self.selected_note_ids.len() > 1 && ids_contain(&self.selected_note_ids, clicked_idx);
            if !is_multi {
                self.selected_note_ids.clear();
            }
            if mouse.is_at_note_end {
                self.flags = self.flags | NOTE_EDIT_LENGTH_CHANGE;
            } else {
                self.flags = self.flags | NOTE_EDIT_DRAGGING | NOTE_EDIT_SYNTH_PLAY;
            }
            if is_multi {
                self.flags = self.flags | NOTE_EDIT_MULTIEDIT;
            }
            self.pick_up_note(clicked_idx, is_multi, mouse.is_at_note_end);
            ToolOutcome {
                show_ghost_notes: !mouse.is_at_note_end,
                hide_ghost_notes: false,
                selection_changed: !is_multi,
                toolbar_from_note: Some(note),
            }
        } else {
            self.clear_selected();
            self.update_first_ghost_note(mouse, toolbar, snap_ratio);
            self.flags = self.flags | NOTE_EDIT_IS_EDITING | NOTE_EDIT_SYNTH_PLAY;
            ToolOutcome { show_ghost_notes: true, hide_ghost_notes: false, selection_changed: true, toolbar_from_note: None }
        }
    }

    /// A press with the selector.
    pub fn select_mouse_down(&mut self, mouse: &NoteEditMouseInfo, snap_ratio: (u8, u16)) -> (r: ToolOutcome)
        requires
            select_down_ok(old(self).tool_view(), old(self).curr_track as int, old(self).ppq, snap_ratio, *mouse),
        ensures
            ({
                let res = select_down_spec(old(self).tool_view(), old(self).curr_track as int, old(self).ppq, snap_ratio, *mouse);
                final(self).tool_view() == res.0 && r == res.1
            }),
            final(self).same_rest(old(self)),
    {
        self.flags = self.flags & !(NOTE_EDIT_DRAGGING | NOTE_EDIT_LENGTH_CHANGE | NOTE_EDIT_MULTIEDIT);
        if let Some(clicked_idx) = mouse.last_clicked_note_idx {
            let modify = self.selected_note_ids.len() > 0 && ids_contain(&self.selected_note_ids, clicked_idx);
            if modify {
                self.flags = self.flags | NOTE_EDIT_MULTIEDIT;
            }
            if mouse.is_at_note_end {
                self.flags = self.flags | NOTE_EDIT_LENGTH_CHANGE;
            } else {
                self.flags = self.flags | NOTE_EDIT_DRAGGING;
            }
            self.pick_up_note(clicked_idx, modify, mouse.is_at_note_end);
            ToolOutcome {
                show_ghost_notes: true,
                hide_ghost_notes: false,
                selection_changed: !mouse.is_at_note_end && !modify,
                toolbar_from_note: None,
            }
        } else {
            self.init_selection_box(mouse.mouse_midi_pos, snap_ratio);
            ToolOutcome { show_ghost_notes: false, hide_ghost_notes: false, selection_changed: false, toolbar_from_note: None }
        }
    }

    /// A press with the eraser.
    pub fn eraser_mouse_down(&mut self, mouse: &NoteEditMouseInfo, snap_ratio: (u8, u16), editor_actions: &mut EditorActions)
        requires
            eraser_down_ok(old(self).tool_view(), old(self).curr_track as int, old(self).ppq, snap_ratio, *mouse),
            old(editor_actions).wf(),
            old(editor_actions).max_actions_spec() > 0,
        ensures
            ({
                let res = eraser_down_spec(old(self).tool_view(), old(self).curr_track as int, old(self).ppq, snap_ratio, *mouse, old(self).curr_track);
                &&& final(self).tool_view() == res.0
                &&& recorded(final(editor_actions), old(editor_actions), res.1)
            }),
            final(self).same_rest(old(self)),
    {
        if let Some(clicked_note_idx) = mouse.last_clicked_note_idx {
            let ghost n0 = self.notes@;
            let ids = vec![clicked_note_idx];
            assert(ids@ =~= seq![clicked_note_idx]);
            self.delete_notes(ids, editor_actions);
            assert(tracks_view(self.notes@).len() == tracks_view(n0).len());
        } else {
            self.flags = self.flags | NOTE_EDIT_ERASING;
            self.init_selection_box(mouse.mouse_midi_pos, snap_ratio);
        }
    }

    /// The mouse is pressed with `tool`. Over the interface, the press is
    /// only noted; with a dialog open, it is ignored. Otherwise the pressed
    /// note is remembered, the editable area is extended past the latest
    /// note, and the tool handles the press.
    pub fn on_mouse_down(
        &mut self,
        tool: EditorTool,
        mouse: &mut NoteEditMouseInfo,
        toolbar: ToolbarNote,
        snap_ratio: (u8, u16),
        editor_actions: &mut EditorActions,
    ) -> (r: ToolOutcome)
        requires
            (old(self).curr_track as int) < old(self).notes@.len(),
            press_reaches_tools(old(self).flags) ==> {
                let t = old(self).notes@[old(self).curr_track as int]@;
                &&& (old(mouse).note_hover_idx matches Some(i) ==> (i as int) < t.len())
                &&& latest_last_start(tracks_view(old(self).notes@), old(self).notes@.len() as int) + 38400 <= u32::MAX
                &&& mouse_down_ok(old(self).tool_view(), old(self).curr_track as int, old(self).ppq, snap_ratio, tool, clicked_mouse(*old(mouse), t), toolbar)
            },
            old(editor_actions).wf(),
            old(editor_actions).max_actions_spec() > 0,
        ensures
            old(self).flags & NOTE_EDIT_MOUSE_OVER_UI != 0 ==> {
                &&& final(self).tool_view() == (ToolView { flags: old(self).flags | NOTE_EDIT_MOUSE_DOWN_ON_UI, ..old(self).tool_view() })
                &&& r == no_outcome() && *final(mouse) == *old(mouse) && *final(editor_actions) == *old(editor_actions)
                &&& final(self).same_rest(old(self))
            },
            old(self).flags & NOTE_EDIT_MOUSE_OVER_UI == 0 && old(self).flags & NOTE_EDIT_ANY_DIALOG_OPEN != 0 ==> {
                &&& final(self).tool_view() == old(self).tool_view()
                &&& r == no_outcome() && *final(mouse) == *old(mouse) && *final(editor_actions) == *old(editor_actions)
                &&& final(self).same_rest(old(self))
            },
            press_reaches_tools(old(self).flags) ==> {
                let t = old(self).notes@[old(self).curr_track as int]@;
                let m1 = clicked_mouse(*old(mouse), t);
                let res = mouse_down_spec(old(self).tool_view(), old(self).curr_track as int, old(self).ppq, snap_ratio, tool, m1, toolbar, old(self).curr_track);
                &&& *final(mouse) == m1
                &&& final(self).latest_note_start == latest_last_start(tracks_view(old(self).notes@), old(self).notes@.len() as int) + 38400
                &&& final(self).tool_view() == res.0
                &&& r == res.1
                &&& recorded(final(editor_actions), old(editor_actions), res.2)
                &&& final(self).same_setup(old(self))
            },
    {
        if self.flags & NOTE_EDIT_MOUSE_OVER_UI != 0 {
            self.flags = self.flags | NOTE_EDIT_MOUSE_DOWN_ON_UI;
            return ToolOutcome { show_ghost_notes: false, hide_ghost_notes: false, selection_changed: false, toolbar_from_note: None };
        }
        if self.flags & NOTE_EDIT_ANY_DIALOG_OPEN != 0 {
            return ToolOutcome { show_ghost_notes: false, hide_ghost_notes: false, selection_changed: false, toolbar_from_note: None };
        }
        self.update_clicked_note(mouse);
        self.update_latest_note_start();
        match tool {
            EditorTool::Pencil => self.pencil_mouse_down(mouse, toolbar, snap_ratio),
            EditorTool::Eraser => {
                self.eraser_mouse_down(mouse, snap_ratio, editor_actions);
                ToolOutcome { show_ghost_notes: false, hide_ghost_notes: false, selection_changed: false, toolbar_from_note: None }
            },
            EditorTool::Selector => self.select_mouse_down(mouse, snap_ratio),
        }
    }

    /// The right mouse button is pressed: with the pencil or the eraser it
    /// erases; the selector ignores it. Over the interface or with a dialog
    /// open, as with the left button.
    pub fn on_right_mouse_down(
        &mut self,
        tool: EditorTool,
        mouse: &mut NoteEditMouseInfo,
        snap_ratio: (u8, u16),
        editor_actions: &mut EditorActions,
    )
        requires
            (old(self).curr_track as int) < old(self).notes@.len(),
            press_reaches_tools(old(self).flags) ==> {
                let t = old(self).notes@[old(self).curr_track as int]@;
                &&& (old(mouse).note_hover_idx matches Some(i) ==> (i as int) < t.len())
                &&& latest_last_start(tracks_view(old(self).notes@), old(self).notes@.len() as int) + 38400 <= u32::MAX
                &&& tool != EditorTool::Selector ==> eraser_down_ok(old(self).tool_view(), old(self).curr_track as int, old(self).ppq, snap_ratio, clicked_mouse(*old(mouse), t))
            },
            old(editor_actions).wf(),
            old(editor_actions).max_actions_spec() > 0,
        ensures
            old(self).flags & NOTE_EDIT_MOUSE_OVER_UI != 0 ==> {
                &&& final(self).tool_view() == (ToolView { flags: old(self).flags | NOTE_EDIT_MOUSE_DOWN_ON_UI, ..old(self).tool_view() })
                &&& *final(mouse) == *old(mouse) && *final(editor_actions) == *old(editor_actions)
                &&& final(self).same_rest(old(self))
            },
            old(self).flags & NOTE_EDIT_MOUSE_OVER_UI == 0 && old(self).flags & NOTE_EDIT_ANY_DIALOG_OPEN != 0 ==> {
                &&& final(self).tool_view() == old(self).tool_view()
                &&& *final(mouse) == *old(mouse) && *final(editor_actions) == *old(editor_actions)
                &&& final(self).same_rest(old(self))
            },
            press_reaches_tools(old(self).flags) ==> {
                let t = old(self).notes@[old(self).curr_track as int]@;
                let m1 = clicked_mouse(*old(mouse), t);
                let res = eraser_down_spec(old(self).tool_view(), old(self).curr_track as int, old(self).ppq, snap_ratio, m1, old(self).curr_track);
                &&& *final(mouse) == m1
                &&& final(self).latest_note_start == latest_last_start(tracks_view(old(self).notes@), old(self).notes@.len() as int) + 38400
                &&& tool != EditorTool::Selector ==> final(self).tool_view() == res.0 && recorded(final(editor_actions), old(editor_actions), res.1)
                &&& tool == EditorTool::Selector ==> final(self).tool_view() == old(self).tool_view() && *final(editor_actions) == *old(editor_actions)
                &&& final(self).same_setup(old(self))
            },
    {
        if self.flags & NOTE_EDIT_MOUSE_OVER_UI != 0 {
            self.flags = self.flags | NOTE_EDIT_MOUSE_DOWN_ON_UI;
            return;
        }
        if self.flags & NOTE_EDIT_ANY_DIALOG_OPEN != 0 {
            return;
        }
        self.update_clicked_note(mouse);
        self.update_latest_note_start();
        match tool {
            EditorTool::Pencil | EditorTool::Eraser => {
                self.eraser_mouse_down(mouse, snap_ratio, editor_actions);
            },
            _ => {},
        }
    }

    /// The mouse moves with `tool`; ignored while a press over the interface
    /// lasts, over the interface, or with a dialog open.
    pub fn on_mouse_move(&mut self, tool: EditorTool, mouse: &NoteEditMouseInfo, toolbar: ToolbarNote, snap_ratio: (u8, u16))
        requires
            old(self).flags & NOTE_EDIT_MOUSE_DOWN_ON_UI == 0 && press_reaches_tools(old(self).flags) ==> mouse_move_ok(
                old(self).tool_view(),
                old(self).curr_track as int,
                old(self).ppq,
                snap_ratio,
                tool,
                *mouse,
                toolbar,
            ),
        ensures
            final(self).tool_view() == (if old(self).flags & NOTE_EDIT_MOUSE_DOWN_ON_UI == 0 && press_reaches_tools(old(self).flags) {
                mouse_move_spec(old(self).tool_view(), old(self).curr_track as int, old(self).ppq, snap_ratio, tool, *mouse, toolbar)
            } else {
                old(self).tool_view()
            }),
            final(self).same_rest(old(self)),
    {
        if self.flags & NOTE_EDIT_MOUSE_DOWN_ON_UI != 0 {
            return;
        }
        let f = self.flags;
        proof {
            lemma_press_flags(f);
        }
        if f & (NOTE_EDIT_ANY_DIALOG_OPEN | NOTE_EDIT_MOUSE_OVER_UI) != 0 {
            return;
        }
        match tool {
            EditorTool::Pencil => self.pencil_mouse_move(mouse, toolbar, snap_ratio),
            EditorTool::Eraser => self.eraser_mouse_move(mouse, snap_ratio),
            EditorTool::Selector => self.select_mouse_move(mouse, toolbar, snap_ratio),
        }
    }

    /// The mouse is released with `tool`. A press that began over the
    /// interface ends there; over the interface or with a dialog open the
    /// release is ignored.
    pub fn on_mouse_up(&mut self, tool: EditorTool, editor_actions: &mut EditorActions) -> (r: ToolOutcome)
        requires
            old(self).flags & NOTE_EDIT_MOUSE_DOWN_ON_UI == 0 && press_reaches_tools(old(self).flags) ==> mouse_up_ok(
                old(self).tool_view(),
                old(self).curr_track as int,
                tool,
            ),
            old(editor_actions).wf(),
            old(editor_actions).max_actions_spec() > 0,
        ensures
            old(self).flags & NOTE_EDIT_MOUSE_DOWN_ON_UI != 0 ==> {
                &&& final(self).tool_view() == (ToolView { flags: old(self).flags & !NOTE_EDIT_MOUSE_DOWN_ON_UI, ..old(self).tool_view() })
                &&& r == no_outcome() && *final(editor_actions) == *old(editor_actions)
            },
            old(self).flags & NOTE_EDIT_MOUSE_DOWN_ON_UI == 0 && !press_reaches_tools(old(self).flags) ==> {
                &&& final(self).tool_view() == old(self).tool_view()
                &&& r == no_outcome() && *final(editor_actions) == *old(editor_actions)
            },
            old(self).flags & NOTE_EDIT_MOUSE_DOWN_ON_UI == 0 && press_reaches_tools(old(self).flags) ==> {
                let res = mouse_up_spec(old(self).tool_view(), old(self).curr_track as int, tool, old(self).curr_track);
                &&& final(self).tool_view() == res.0
                &&& r == res.1
                &&& recorded(final(editor_actions), old(editor_actions), res.2)
            },
            final(self).same_rest(old(self)),
    {
        if self.flags & NOTE_EDIT_MOUSE_DOWN_ON_UI != 0 {
            self.flags = self.flags & !NOTE_EDIT_MOUSE_DOWN_ON_UI;
            return ToolOutcome { show_ghost_notes: false, hide_ghost_notes: false, selection_changed: false, toolbar_from_note: None };
        }
        let f = self.flags;
        proof {
            lemma_press_flags(f);
        }
        if f & (NOTE_EDIT_MOUSE_OVER_UI | NOTE_EDIT_ANY_DIALOG_OPEN) != 0 {
            return ToolOutcome { show_ghost_notes: false, hide_ghost_notes: false, selection_changed: false, toolbar_from_note: None };
        }
        match tool {
            EditorTool::Pencil => self.pencil_mouse_up(editor_actions),
            EditorTool::Eraser => {
                self.eraser_mouse_up(editor_actions);
                ToolOutcome { show_ghost_notes: false, hide_ghost_notes: false, selection_changed: false, toolbar_from_note: None }
            },
            EditorTool::Selector => self.select_mouse_up(editor_actions),
        }
    }
}

impl NoteEditing {
    /// The mouse moved to `pos` in the piano roll (`pos_rounded` is on the
    /// grid). Over the interface nothing is hovered. Otherwise the note
    /// under the mouse in the current track (none without tracks) becomes
    /// the hovered note, and the hover flag is on exactly when there is one;
    /// whether the mouse is at that note's end depends on the screen and is
    /// left false for the caller to set. Returns the hovered note.
    pub fn update_mouse_hover(&mut self, mouse: &mut NoteEditMouseInfo, pos: (MIDITick, u8), pos_rounded: (MIDITick, u8)) -> (r: Option<usize>)
        requires
            old(self).flags & NOTE_EDIT_MOUSE_OVER_UI == 0 && old(self).notes@.len() > 0 ==> {
                &&& (old(self).curr_track as int) < old(self).notes@.len()
                &&& find_note_fits(old(self).notes@[old(self).curr_track as int]@, pos.0, pos.1)
            },
        ensures
            old(self).flags & NOTE_EDIT_MOUSE_OVER_UI != 0 ==> {
                &&& r is None
                &&& final(self).tool_view() == (ToolView { flags: old(self).flags & !NOTE_EDIT_MOUSE_OVER_NOTE, ..old(self).tool_view() })
                &&& *final(mouse) == (NoteEditMouseInfo {
                    mouse_midi_pos: pos,
                    mouse_midi_pos_rounded: pos_rounded,
                    note_hover_idx: None,
                    ..*old(mouse)
                })
            },
            old(self).flags & NOTE_EDIT_MOUSE_OVER_UI == 0 ==> {
                &&& old(self).notes@.len() == 0 ==> r is None
                &&& old(self).notes@.len() > 0 ==> found_note_at(old(self).notes@[old(self).curr_track as int]@, pos.0, pos.1, r)
                &&& final(self).tool_view() == (ToolView {
                    flags: if r is Some {
                        (old(self).flags & !NOTE_EDIT_MOUSE_OVER_NOTE) | NOTE_EDIT_MOUSE_OVER_NOTE
                    } else {
                        old(self).flags & !NOTE_EDIT_MOUSE_OVER_NOTE
                    },
                    ..old(self).tool_view()
                })
                &&& *final(mouse) == (NoteEditMouseInfo {
                    mouse_midi_pos: pos,
                    mouse_midi_pos_rounded: pos_rounded,
                    note_hover_idx: r,
                    is_at_note_end: false,
                    ..*old(mouse)
                })
            },
            final(self).same_rest(old(self)),
    {
        mouse.mouse_midi_pos = pos;
        mouse.mouse_midi_pos_rounded = pos_rounded;
        let over_ui = self.flags & NOTE_EDIT_MOUSE_OVER_UI != 0;
        self.flags = self.flags & !NOTE_EDIT_MOUSE_OVER_NOTE;
        if over_ui {
            mouse.note_hover_idx = None;
            return None;
        }
        let hover = if self.notes.len() == 0 {
            None
        } else {
            find_note_at(&self.notes[self.curr_track as usize], pos.0, pos.1)
        };
        if hover.is_some() {
            self.flags = self.flags | NOTE_EDIT_MOUSE_OVER_NOTE;
        }
        mouse.is_at_note_end = false;
        mouse.note_hover_idx = hover;
        hover
    }
}

} // verus!
