use andromeda::actions::{EditorAction, EditorActions};
use andromeda::midi_types::Note;
use andromeda::note_editing::NoteEditing;

fn n(start: u32, length: u32, key: u8) -> Note {
    Note { start, length, channel: 0, key, velocity: 100 }
}

fn starts(notes: &[Note]) -> Vec<u32> {
    notes.iter().map(|x| x.start).collect()
}

#[test]
fn flags_set_and_clear_bits() {
    let mut editing = NoteEditing::new(vec![vec![]]);
    assert!(!editing.get_flag(0b0001));
    editing.enable_flag(0b0101);
    assert_eq!(editing.flags, 0b0101);
    assert!(editing.get_flag(0b0100));
    editing.disable_flag(0b0001);
    assert_eq!(editing.flags, 0b0100);
    editing.set_flag(0b0010, true);
    assert_eq!(editing.flags, 0b0110);
    editing.set_flag(0b0110, false);
    assert_eq!(editing.flags, 0);
    assert_eq!(editing.get_current_track(), 0);
    assert!(!editing.get_can_draw_selection_box());
}

#[test]
fn snap_lengths_and_ticks() {
    let editing = NoteEditing::new(vec![vec![]]);
    assert_eq!(editing.get_min_snap_tick_length((0, 0)), 1);
    assert_eq!(editing.get_min_snap_tick_length((1, 4)), 960);
    assert_eq!(editing.get_min_snap_tick_length((1, 16)), 240);
    assert_eq!(editing.get_min_snap_tick_length((3, 8)), 1440);
    assert_eq!(editing.snap_tick(130, (1, 16)), 240);
    assert_eq!(editing.snap_tick(100, (1, 16)), 0);
    assert_eq!(editing.snap_tick(120, (1, 16)), 240);
    assert_eq!(editing.snap_tick(-130, (1, 16)), -240);
    assert_eq!(editing.snap_tick(-100, (1, 16)), 0);
    assert_eq!(editing.snap_tick(77, (0, 4)), 77);
}

#[test]
fn latest_note_start_follows_last_notes() {
    let mut editing = NoteEditing::new(vec![vec![n(0, 10, 1), n(500, 10, 1)], vec![], vec![n(1000, 5, 2)]]);
    editing.update_latest_note_start();
    assert_eq!(editing.latest_note_start, 39400);
    let mut empty = NoteEditing::new(vec![vec![]]);
    empty.update_latest_note_start();
    assert_eq!(empty.latest_note_start, 38400);
}

#[test]
fn positions_lengths_and_clones() {
    let editing = NoteEditing::new(vec![vec![n(0, 10, 60), n(20, 30, 62), n(40, 5, 64)]]);
    assert_eq!(editing.get_note_positions(&vec![2, 0]), vec![(40, 64), (0, 60)]);
    assert_eq!(editing.get_note_lengths(&vec![1]), vec![(1, 30)]);
    assert_eq!(editing.clone_notes(0, &[1, 2]), vec![n(20, 30, 62), n(40, 5, 64)]);
}

#[test]
fn length_drag_then_record() {
    let mut editing = NoteEditing::new(vec![vec![n(0, 10, 60), n(20, 30, 62)]]);
    editing.note_old_lengths = editing.get_note_lengths(&vec![0, 1]);
    editing.offset_note_lengths(-20);
    assert_eq!(editing.notes[0][0].length, 1);
    assert_eq!(editing.notes[0][1].length, 10);
    let mut actions = EditorActions::new(8);
    editing.apply_note_length_change(&mut actions);
    assert!(editing.note_old_lengths.is_empty());
    let undo = actions.undo_action().unwrap();
    assert!(matches!(undo, EditorAction::LengthChange(ids, d, 0) if ids == &vec![0, 1] && d == &vec![9, 20]));
    editing.apply_action(undo);
    assert_eq!(editing.notes[0][0].length, 10);
    assert_eq!(editing.notes[0][1].length, 30);
}

#[test]
fn ghost_notes_from_selection_and_back() {
    let mut editing = NoteEditing::new(vec![vec![n(0, 10, 60), n(20, 10, 62), n(40, 10, 64)]]);
    editing.selected_note_ids = vec![0, 2];
    editing.note_old_positions = editing.get_note_positions(&editing.selected_note_ids.clone());
    editing.selected_notes_to_ghost_notes();
    assert_eq!(starts(&editing.ghost_notes), vec![0, 40]);
    assert_eq!(starts(&editing.notes[0]), vec![20]);
    assert!(editing.selected_note_ids.is_empty());

    editing.offset_ghost_notes((30, -70));
    assert_eq!(starts(&editing.ghost_notes), vec![30, 70]);
    assert_eq!(editing.ghost_notes.iter().map(|x| x.key).collect::<Vec<_>>(), vec![0, 0]);
    let deltas = editing.get_ghost_notes_pos_delta();
    assert_eq!(deltas, vec![(30, -60), (30, -64)]);

    let mut actions = EditorActions::new(8);
    editing.apply_ghost_move_notes(deltas, &mut actions);
    assert!(editing.ghost_notes.is_empty());
    assert_eq!(starts(&editing.notes[0]), vec![20, 30, 70]);
    assert_eq!(editing.selected_note_ids, vec![1, 2]);
    let undo = actions.undo_action().unwrap();
    assert!(matches!(undo, EditorAction::NotesMove(ids, _, 0, true) if ids == &vec![1, 2]));
}

#[test]
fn offset_ghost_clamps_start_and_key() {
    let mut editing = NoteEditing::new(vec![vec![]]);
    editing.ghost_notes = vec![n(10, 5, 120)];
    editing.note_old_positions = vec![(10, 120)];
    editing.offset_ghost_notes((-50, 20));
    assert_eq!(editing.ghost_notes[0].start, 0);
    assert_eq!(editing.ghost_notes[0].key, 127);
}

#[test]
fn placing_a_ghost_note_from_the_toolbar() {
    let mut editing = NoteEditing::new(vec![vec![n(0, 10, 60), n(100, 10, 60)]]);
    editing.set_first_ghost_note_pos(50, 72, 3, 240, 90);
    assert_eq!(editing.ghost_notes, vec![Note { start: 50, length: 240, channel: 2, key: 72, velocity: 90 }]);
    editing.set_first_ghost_note_pos(60, 73, 1, 120, 80);
    assert_eq!(editing.ghost_notes, vec![Note { start: 60, length: 120, channel: 0, key: 73, velocity: 80 }]);
    let mut actions = EditorActions::new(8);
    editing.apply_ghost_place_notes(&mut actions);
    assert_eq!(starts(&editing.notes[0]), vec![0, 60, 100]);
    assert!(matches!(actions.undo_action(), Some(EditorAction::DeleteNotes(ids, None, 0)) if ids == &vec![1]));
}

#[test]
fn picking_up_a_note_as_ghost() {
    let mut editing = NoteEditing::new(vec![vec![n(0, 10, 60), n(100, 10, 61)]]);
    editing.note_id_as_first_ghost_note(1);
    assert_eq!(editing.ghost_notes, vec![n(100, 10, 61)]);
    assert_eq!(editing.notes[0], vec![n(0, 10, 60)]);
    let taken = editing.ghost_notes_into_notes();
    assert_eq!(taken, vec![n(100, 10, 61)]);
    assert!(editing.ghost_notes.is_empty());
}

#[test]
fn merging_ghost_notes_into_another_track() {
    let mut editing = NoteEditing::new(vec![vec![n(0, 10, 60), n(50, 10, 61)], vec![n(5, 1, 1)]]);
    editing.ghost_notes = vec![n(25, 10, 70)];
    let ids = editing.merge_ghost_notes(1);
    assert_eq!(ids, vec![1]);
    assert!(editing.notes[0].is_empty());
    assert_eq!(starts(&editing.notes[1]), vec![0, 25, 50]);
}

#[test]
fn duplicating_places_copies_after_the_last_end() {
    let mut editing = NoteEditing::new(vec![vec![n(0, 10, 60), n(20, 30, 62), n(100, 10, 64)]]);
    let mut actions = EditorActions::new(8);
    let ids = editing.duplicate_notes(0, &vec![0, 1], &mut actions);
    assert_eq!(starts(&editing.notes[0]), vec![0, 20, 50, 70, 100]);
    assert_eq!(ids, vec![2, 3]);
    assert!(matches!(actions.undo_action(), Some(EditorAction::DeleteNotes(i, None, 0)) if i == &vec![2, 3]));

    editing.selected_note_ids = vec![4];
    editing.duplicate_selected_notes(&mut actions);
    assert_eq!(starts(&editing.notes[0]), vec![0, 20, 50, 70, 100, 110]);
    assert_eq!(editing.selected_note_ids, vec![5]);
}

#[test]
fn copy_cut_and_paste() {
    let mut editing = NoteEditing::new(vec![vec![n(10, 10, 60), n(30, 10, 62), n(50, 10, 64)], vec![]]);
    editing.copy_notes(0);
    assert!(editing.notes_clipboard.is_empty());
    editing.selected_note_ids = vec![1, 2];
    editing.copy_notes(0);
    assert_eq!(starts(&editing.notes_clipboard), vec![30, 50]);

    let mut actions = EditorActions::new(8);
    editing.paste_notes_offset(1, 100, &mut actions);
    assert_eq!(starts(&editing.notes[1]), vec![100, 120]);

    editing.cut_selected_notes(0, &mut actions);
    assert_eq!(starts(&editing.notes[0]), vec![10]);
    assert_eq!(starts(&editing.notes_clipboard), vec![30, 50]);
    assert!(editing.selected_note_ids.is_empty());

    editing.paste_notes(0, &mut actions);
    assert_eq!(starts(&editing.notes[0]), vec![10, 30, 50]);
    assert_eq!(editing.selected_note_ids, vec![1, 2]);
}

#[test]
fn deleting_notes_remaps_selection() {
    let mut editing = NoteEditing::new(vec![vec![n(0, 1, 1), n(10, 1, 2), n(20, 1, 3), n(30, 1, 4)]]);
    editing.selected_note_ids = vec![0, 2, 3];
    let mut actions = EditorActions::new(8);
    editing.delete_notes(vec![0, 2], &mut actions);
    assert_eq!(starts(&editing.notes[0]), vec![10, 30]);
    assert_eq!(editing.selected_note_ids, vec![1]);
    let undo = actions.undo_action().unwrap();
    editing.apply_action(undo);
    assert_eq!(starts(&editing.notes[0]), vec![0, 10, 20, 30]);

    editing.selected_note_ids = vec![3];
    editing.delete_notes_no_remap(vec![1], &mut actions);
    assert_eq!(starts(&editing.notes[0]), vec![0, 20, 30]);
    assert_eq!(editing.selected_note_ids, vec![3]);
}
