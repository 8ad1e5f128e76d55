use andromeda::actions::{EditorAction, EditorActions};
use andromeda::lua_note_editing::LuaNoteEditing;
use andromeda::midi_types::Note;
use andromeda::note_editing::NoteEditing;

fn nt(start: u32, length: u32, key: u8, channel: u8, velocity: u8) -> Note {
    Note { start, length, channel, key, velocity }
}

#[test]
fn deltas_of_one_note() {
    let mut le = LuaNoteEditing::new();
    let before = nt(10, 5, 60, 0, 100);
    let after = nt(20, 5, 62, 3, 90);
    le.change_note_and_update_deltas(before, after, 4);
    assert_eq!(le.delta_note_pos.get(&4), Some(&(10, 2)));
    assert!(le.delta_note_lengths.is_empty());
    assert_eq!(le.delta_note_channels.get(&4), Some(&3));
    assert_eq!(le.delta_note_velocities.get(&4), Some(&-10));
    // a later change of the same note replaces the recorded one
    le.change_note_and_update_deltas(before, nt(10, 9, 60, 0, 100), 4);
    assert_eq!(le.delta_note_lengths.get(&4), Some(&4));
    assert_eq!(le.delta_note_pos.get(&4), Some(&(10, 2)));
}

#[test]
fn unchanged_note_records_nothing() {
    let mut le = LuaNoteEditing::new();
    let n = nt(10, 5, 60, 0, 100);
    le.change_note_and_update_deltas(n, n, 0);
    assert!(le.delta_note_pos.is_empty());
    assert!(le.delta_note_lengths.is_empty());
    assert!(le.delta_note_channels.is_empty());
    assert!(le.delta_note_velocities.is_empty());
}

#[test]
fn apply_moves_and_adds() {
    let mut ne = NoteEditing::new(vec![vec![nt(0, 5, 60, 0, 100), nt(10, 5, 61, 0, 100), nt(20, 5, 62, 0, 100)]]);
    let mut le = LuaNoteEditing::new();
    let before = ne.notes[0][0];
    ne.notes[0][0].start = 15;
    let after = ne.notes[0][0];
    le.change_note_and_update_deltas(before, after, 0);
    le.notes_to_add = vec![nt(5, 1, 70, 0, 100), nt(1, 1, 71, 0, 100)];
    let mut actions = EditorActions::new(8);
    le.apply_changes(0, &mut ne, &mut actions);
    let starts: Vec<u32> = ne.notes[0].iter().map(|n| n.start).collect();
    assert_eq!(starts, vec![1, 5, 10, 15, 20]);
    assert_eq!(ne.notes[0][3].key, 60);
    match actions.undo_action().unwrap() {
        EditorAction::Bulk(v) => {
            assert_eq!(v.len(), 2);
            assert!(matches!(&v[0], EditorAction::DeleteNotes(ids, None, 0) if ids == &vec![0, 1]));
            assert!(matches!(&v[1], EditorAction::NotesMove(ids, d, 0, true) if ids == &vec![0] && d == &vec![(-15, 0)]));
        }
        _ => panic!("expected one bulk action"),
    }
}

#[test]
fn changes_recorded_by_ascending_id() {
    let mut ne = NoteEditing::new(vec![vec![nt(0, 5, 60, 0, 100), nt(10, 5, 61, 0, 100), nt(20, 5, 62, 0, 100), nt(30, 5, 63, 0, 100)]]);
    let mut le = LuaNoteEditing::new();
    le.change_note_and_update_deltas(ne.notes[0][3], nt(30, 5, 63, 2, 100), 3);
    le.change_note_and_update_deltas(ne.notes[0][1], nt(10, 5, 61, 5, 100), 1);
    ne.notes[0][3].channel = 2;
    ne.notes[0][1].channel = 5;
    let mut actions = EditorActions::new(8);
    le.apply_changes(0, &mut ne, &mut actions);
    let starts: Vec<u32> = ne.notes[0].iter().map(|n| n.start).collect();
    assert_eq!(starts, vec![0, 10, 20, 30]);
    match actions.undo_action().unwrap() {
        EditorAction::Bulk(v) => {
            assert_eq!(v.len(), 1);
            assert!(matches!(&v[0], EditorAction::ChannelChange(ids, d, 0) if ids == &vec![1, 3] && d == &vec![-5, -2]));
        }
        _ => panic!("expected one bulk action"),
    }
}

#[test]
fn nothing_gathered_records_nothing() {
    let mut ne = NoteEditing::new(vec![vec![nt(0, 5, 60, 0, 100)]]);
    let le = LuaNoteEditing::new();
    let mut actions = EditorActions::new(8);
    le.apply_changes(0, &mut ne, &mut actions);
    assert_eq!(ne.notes[0].len(), 1);
    assert!(!actions.get_can_undo());
}
