use andromeda::actions::{EditorAction, EditorActions};
use andromeda::midi_types::Note;
use andromeda::note_edit_flags::{
    NOTE_EDIT_DRAGGING, NOTE_EDIT_ERASING, NOTE_EDIT_IS_EDITING, NOTE_EDIT_LENGTH_CHANGE, NOTE_EDIT_MOUSE_DOWN_ON_UI,
    NOTE_EDIT_MOUSE_OVER_NOTE, NOTE_EDIT_MOUSE_OVER_UI, NOTE_EDIT_MULTIEDIT, NOTE_EDIT_SYNTH_PLAY,
};
use andromeda::note_editing::NoteEditing;
use andromeda::note_tools::{EditorTool, NoteEditMouseInfo, ToolbarNote};

const SNAP: (u8, u16) = (1, 16);
const TOOLBAR: ToolbarNote = ToolbarNote { channel_shown: 1, gate: 240, velocity: 100 };

fn n(start: u32, length: u32, key: u8) -> Note {
    Note { start, length, channel: 0, key, velocity: 100 }
}

fn mouse_at(tick: u32, key: u8, hover: Option<usize>, at_end: bool) -> NoteEditMouseInfo {
    NoteEditMouseInfo {
        mouse_midi_pos: (tick, key),
        mouse_midi_pos_rounded: (tick, key),
        last_mouse_click_pos: (0, 0),
        last_clicked_note_idx: None,
        last_clicked_note_pos: (0, 0),
        note_hover_idx: hover,
        is_at_note_end: at_end,
    }
}

fn starts(notes: &[Note]) -> Vec<u32> {
    notes.iter().map(|x| x.start).collect()
}

#[test]
fn pencil_draws_a_note() {
    let mut editing = NoteEditing::new(vec![vec![]]);
    let mut actions = EditorActions::new(8);
    let mut mouse = mouse_at(500, 60, None, false);
    let out = editing.on_mouse_down(EditorTool::Pencil, &mut mouse, TOOLBAR, SNAP, &mut actions);
    assert!(out.show_ghost_notes && out.selection_changed);
    assert_eq!(editing.ghost_notes, vec![Note { start: 480, length: 240, channel: 0, key: 60, velocity: 100 }]);
    assert_eq!(editing.flags, NOTE_EDIT_IS_EDITING | NOTE_EDIT_SYNTH_PLAY);
    assert_eq!(editing.latest_note_start, 38400);
    assert_eq!(mouse.last_mouse_click_pos, (500, 60));

    let moved = mouse_at(1000, 62, None, false);
    editing.on_mouse_move(EditorTool::Pencil, &moved, TOOLBAR, SNAP);
    assert_eq!(editing.ghost_notes[0].start, 960);
    assert_eq!(editing.ghost_notes[0].key, 62);

    let out = editing.on_mouse_up(EditorTool::Pencil, &mut actions);
    assert!(out.hide_ghost_notes);
    assert_eq!(starts(&editing.notes[0]), vec![960]);
    assert!(editing.ghost_notes.is_empty());
    assert_eq!(editing.flags, 0);
    assert!(matches!(actions.undo_action(), Some(EditorAction::DeleteNotes(ids, None, 0)) if ids == &vec![0]));
}

#[test]
fn pencil_drags_one_note() {
    let mut editing = NoteEditing::new(vec![vec![n(0, 240, 60), n(480, 240, 62)]]);
    let mut actions = EditorActions::new(8);
    let mut mouse = mouse_at(500, 62, Some(1), false);
    let out = editing.on_mouse_down(EditorTool::Pencil, &mut mouse, TOOLBAR, SNAP, &mut actions);
    assert_eq!(out.toolbar_from_note, Some(n(480, 240, 62)));
    assert!(out.show_ghost_notes);
    assert_eq!(mouse.last_clicked_note_idx, Some(1));
    assert_eq!(mouse.last_clicked_note_pos, (480, 62));
    assert_eq!(starts(&editing.notes[0]), vec![0]);
    assert_eq!(editing.ghost_notes, vec![n(480, 240, 62)]);
    assert_eq!(editing.note_old_positions, vec![(480, 62)]);
    assert_eq!(editing.flags, NOTE_EDIT_DRAGGING | NOTE_EDIT_SYNTH_PLAY);

    mouse.mouse_midi_pos = (1000, 64);
    editing.on_mouse_move(EditorTool::Pencil, &mouse, TOOLBAR, SNAP);
    assert_eq!(editing.ghost_notes[0].start, 960);
    assert_eq!(editing.ghost_notes[0].key, 64);

    editing.on_mouse_up(EditorTool::Pencil, &mut actions);
    assert_eq!(starts(&editing.notes[0]), vec![0, 960]);
    assert_eq!(editing.notes[0][1].key, 64);
    let undo = actions.undo_action().unwrap();
    assert!(matches!(undo, EditorAction::NotesMove(ids, d, 0, false) if ids == &vec![1] && d == &vec![(-480, -2)]));
}

#[test]
fn pencil_drags_a_note_end() {
    let mut editing = NoteEditing::new(vec![vec![n(0, 240, 60)]]);
    let mut actions = EditorActions::new(8);
    let mut mouse = mouse_at(230, 60, Some(0), true);
    let out = editing.on_mouse_down(EditorTool::Pencil, &mut mouse, TOOLBAR, SNAP, &mut actions);
    assert!(!out.show_ghost_notes);
    assert_eq!(editing.note_old_lengths, vec![(0, 240)]);
    assert_eq!(editing.flags, NOTE_EDIT_LENGTH_CHANGE);
    mouse.mouse_midi_pos = (470, 60);
    editing.on_mouse_move(EditorTool::Pencil, &mouse, TOOLBAR, SNAP);
    assert_eq!(editing.notes[0][0].length, 480);
    editing.on_mouse_up(EditorTool::Pencil, &mut actions);
    assert!(editing.note_old_lengths.is_empty());
    assert!(matches!(actions.undo_action(), Some(EditorAction::LengthChange(ids, d, 0)) if ids == &vec![0] && d == &vec![-240]));
}

#[test]
fn selector_box_selects_notes() {
    let mut editing = NoteEditing::new(vec![vec![n(0, 240, 60), n(480, 240, 62), n(2000, 10, 61)]]);
    let mut actions = EditorActions::new(8);
    let mut mouse = mouse_at(0, 50, None, false);
    editing.on_mouse_down(EditorTool::Selector, &mut mouse, TOOLBAR, SNAP, &mut actions);
    assert!(editing.get_can_draw_selection_box());
    assert_eq!(editing.selection_range, (0, 0, 50, 50));
    mouse.mouse_midi_pos = (1000, 70);
    editing.on_mouse_move(EditorTool::Selector, &mouse, TOOLBAR, SNAP);
    assert_eq!(editing.selection_range, (0, 960, 50, 70));
    let out = editing.on_mouse_up(EditorTool::Selector, &mut actions);
    assert!(out.selection_changed);
    assert!(!editing.get_can_draw_selection_box());
    assert_eq!(editing.selected_note_ids, vec![0, 1]);
    assert!(matches!(actions.undo_action(), Some(EditorAction::Deselect(ids, 0)) if ids == &vec![0, 1]));
}

#[test]
fn empty_box_deselects() {
    let mut editing = NoteEditing::new(vec![vec![n(0, 240, 60)]]);
    editing.selected_note_ids = vec![0];
    let mut actions = EditorActions::new(8);
    let mut mouse = mouse_at(5000, 10, None, false);
    editing.on_mouse_down(EditorTool::Selector, &mut mouse, TOOLBAR, SNAP, &mut actions);
    editing.on_mouse_up(EditorTool::Selector, &mut actions);
    assert!(editing.selected_note_ids.is_empty());
    assert!(matches!(actions.undo_action(), Some(EditorAction::Select(ids, 0)) if ids == &vec![0]));
}

#[test]
fn selector_drags_the_selection() {
    let mut editing = NoteEditing::new(vec![vec![n(0, 240, 60), n(480, 240, 62)]]);
    editing.selected_note_ids = vec![0, 1];
    let mut actions = EditorActions::new(8);
    let mut mouse = mouse_at(500, 62, Some(1), false);
    let out = editing.on_mouse_down(EditorTool::Selector, &mut mouse, TOOLBAR, SNAP, &mut actions);
    assert!(out.show_ghost_notes && !out.selection_changed);
    assert_eq!(editing.flags, NOTE_EDIT_MULTIEDIT | NOTE_EDIT_DRAGGING);
    assert!(editing.notes[0].is_empty());
    assert_eq!(editing.note_old_positions, vec![(0, 60), (480, 62)]);
    mouse.mouse_midi_pos = (740, 63);
    editing.on_mouse_move(EditorTool::Selector, &mouse, TOOLBAR, SNAP);
    assert_eq!(editing.ghost_notes, vec![n(240, 240, 61), n(720, 240, 63)]);
    let out = editing.on_mouse_up(EditorTool::Selector, &mut actions);
    assert!(out.hide_ghost_notes && out.selection_changed);
    assert_eq!(editing.notes[0], vec![n(240, 240, 61), n(720, 240, 63)]);
    assert_eq!(editing.selected_note_ids, vec![0, 1]);
    assert!(matches!(actions.undo_action(), Some(EditorAction::NotesMove(_, d, 0, true)) if d == &vec![(-240, -1), (-240, -1)]));
}

#[test]
fn eraser_deletes_under_mouse_and_in_box() {
    let mut editing = NoteEditing::new(vec![vec![n(0, 240, 60), n(480, 240, 62), n(960, 240, 64)]]);
    let mut actions = EditorActions::new(8);
    let mut mouse = mouse_at(100, 60, Some(0), false);
    editing.on_mouse_down(EditorTool::Eraser, &mut mouse, TOOLBAR, SNAP, &mut actions);
    assert_eq!(starts(&editing.notes[0]), vec![480, 960]);

    let mut mouse = mouse_at(400, 0, None, false);
    editing.on_mouse_down(EditorTool::Eraser, &mut mouse, TOOLBAR, SNAP, &mut actions);
    assert_eq!(editing.flags, NOTE_EDIT_ERASING);
    mouse.mouse_midi_pos = (900, 127);
    editing.on_mouse_move(EditorTool::Eraser, &mouse, TOOLBAR, SNAP);
    editing.on_mouse_up(EditorTool::Eraser, &mut actions);
    assert_eq!(editing.flags, 0);
    assert_eq!(starts(&editing.notes[0]), vec![960]);
}

#[test]
fn presses_over_the_interface_stay_there() {
    let mut editing = NoteEditing::new(vec![vec![n(0, 240, 60)]]);
    editing.flags = NOTE_EDIT_MOUSE_OVER_UI;
    let mut actions = EditorActions::new(8);
    let mut mouse = mouse_at(100, 60, Some(0), false);
    editing.on_mouse_down(EditorTool::Eraser, &mut mouse, TOOLBAR, SNAP, &mut actions);
    assert_eq!(editing.flags, NOTE_EDIT_MOUSE_OVER_UI | NOTE_EDIT_MOUSE_DOWN_ON_UI);
    assert_eq!(editing.notes[0].len(), 1);
    editing.flags = NOTE_EDIT_MOUSE_DOWN_ON_UI;
    editing.on_mouse_up(EditorTool::Eraser, &mut actions);
    assert_eq!(editing.flags, 0);
    assert!(!actions.get_can_undo());
}

#[test]
fn right_button_erases_with_pencil_only() {
    let mut editing = NoteEditing::new(vec![vec![n(0, 240, 60)]]);
    let mut actions = EditorActions::new(8);
    let mut mouse = mouse_at(100, 60, Some(0), false);
    editing.on_right_mouse_down(EditorTool::Selector, &mut mouse, SNAP, &mut actions);
    assert_eq!(editing.notes[0].len(), 1);
    editing.on_right_mouse_down(EditorTool::Pencil, &mut mouse, SNAP, &mut actions);
    assert!(editing.notes[0].is_empty());
}

#[test]
fn selection_range_is_ordered() {
    let mut editing = NoteEditing::new(vec![vec![]]);
    editing.selection_range = (900, 100, 70, 20);
    assert_eq!(editing.get_selection_range(), (100, 900, 20, 70));
    editing.clear_selected();
    assert!(editing.selected_note_ids.is_empty());
}

#[test]
fn hover_finds_note_under_mouse() {
    let mut ne = NoteEditing::new(vec![vec![n(0, 100, 60), n(50, 100, 62), n(200, 10, 60)]]);
    let mut mouse = mouse_at(0, 0, None, true);
    let r = ne.update_mouse_hover(&mut mouse, (60, 62), (48, 62));
    assert_eq!(r, Some(1));
    assert_eq!(mouse.note_hover_idx, Some(1));
    assert_eq!(mouse.mouse_midi_pos, (60, 62));
    assert_eq!(mouse.mouse_midi_pos_rounded, (48, 62));
    assert!(!mouse.is_at_note_end);
    assert!(ne.flags & NOTE_EDIT_MOUSE_OVER_NOTE != 0);

    let r = ne.update_mouse_hover(&mut mouse, (150, 61), (144, 61));
    assert_eq!(r, None);
    assert!(ne.flags & NOTE_EDIT_MOUSE_OVER_NOTE == 0);

    ne.flags = NOTE_EDIT_MOUSE_OVER_UI;
    let mut mouse = mouse_at(0, 0, Some(0), true);
    assert_eq!(ne.update_mouse_hover(&mut mouse, (60, 62), (48, 62)), None);
    assert_eq!(mouse.note_hover_idx, None);
    assert!(mouse.is_at_note_end);
}
