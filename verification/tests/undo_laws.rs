use andromeda::actions::EditorAction;
use andromeda::midi_types::Note;
use andromeda::note_editing::NoteEditing;

fn nv(start: u32, key: u8, velocity: u8, channel: u8) -> Note {
    Note { start, length: 10, channel, key, velocity }
}

fn invert(a: EditorAction) -> EditorAction {
    match a {
        EditorAction::PlaceNotes(i, n, t) => EditorAction::DeleteNotes(i, n, t),
        EditorAction::VelocityChange(i, d, t) => EditorAction::VelocityChange(i, d.iter().map(|x| -x).collect(), t),
        EditorAction::ChannelChange(i, d, t) => EditorAction::ChannelChange(i, d.iter().map(|x| -x).collect(), t),
        EditorAction::LengthChange(i, d, t) => EditorAction::LengthChange(i, d.iter().map(|x| -x).collect(), t),
        other => other,
    }
}

#[test]
fn velocity_change_then_undo_restores_notes() {
    let before = vec![nv(0, 60, 100, 0), nv(10, 61, 5, 0), nv(20, 62, 64, 0)];
    let mut editing = NoteEditing::new(vec![before.clone()]);
    let mut change = EditorAction::VelocityChange(vec![0, 1], vec![50, -20], 0);
    editing.apply_action(&mut change);
    assert_eq!(editing.notes[0][0].velocity, 127);
    assert_eq!(editing.notes[0][1].velocity, 1);
    let mut undo = invert(change);
    editing.apply_action(&mut undo);
    assert_eq!(editing.notes[0], before);
    assert!(matches!(&undo, EditorAction::VelocityChange(_, d, 0) if d == &vec![-27, 4]));
}

#[test]
fn channel_change_then_undo_restores_notes() {
    let before = vec![nv(0, 60, 100, 3), nv(10, 61, 100, 14)];
    let mut editing = NoteEditing::new(vec![before.clone()]);
    let mut change = EditorAction::ChannelChange(vec![0, 1], vec![-10, 5], 0);
    editing.apply_action(&mut change);
    assert_eq!(editing.notes[0][0].channel, 0);
    assert_eq!(editing.notes[0][1].channel, 15);
    let mut undo = invert(change);
    editing.apply_action(&mut undo);
    assert_eq!(editing.notes[0], before);
}

#[test]
fn length_change_then_undo_restores_notes() {
    let before = vec![nv(0, 60, 100, 0), nv(10, 61, 100, 0)];
    let mut editing = NoteEditing::new(vec![before.clone()]);
    let mut change = EditorAction::LengthChange(vec![1, 0], vec![100, -50], 0);
    editing.apply_action(&mut change);
    assert_eq!(editing.notes[0][1].length, 110);
    assert_eq!(editing.notes[0][0].length, 1);
    let mut undo = invert(change);
    editing.apply_action(&mut undo);
    assert_eq!(editing.notes[0], before);
}

#[test]
fn place_then_undo_takes_the_notes_out() {
    let before = vec![nv(0, 60, 100, 0), nv(20, 62, 100, 0)];
    let placed = vec![nv(10, 70, 90, 1), nv(20, 71, 90, 1), nv(30, 72, 90, 1)];
    let mut editing = NoteEditing::new(vec![before.clone()]);
    // the placed notes land after the notes that start with them
    let mut place = EditorAction::PlaceNotes(vec![1, 3, 4], Some(placed.clone()), 0);
    editing.apply_action(&mut place);
    assert_eq!(editing.notes[0].iter().map(|n| n.start).collect::<Vec<_>>(), vec![0, 10, 20, 20, 30]);
    assert_eq!(editing.notes[0][3].key, 71);
    let mut undo = invert(place);
    editing.apply_action(&mut undo);
    assert_eq!(editing.notes[0], before);
    assert!(matches!(&undo, EditorAction::DeleteNotes(i, Some(n), 0) if i == &vec![1, 3, 4] && n == &placed));
}
