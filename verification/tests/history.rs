use andromeda::actions::{EditorAction, EditorActions};
use andromeda::midi_types::Note;
use andromeda::note_editing::NoteEditing;

fn n(start: u32, length: u32, key: u8) -> Note {
    Note { start, length, channel: 0, key, velocity: 100 }
}

#[test]
fn register_undo_redo_cycle() {
    let mut actions = EditorActions::new(10);
    assert!(!actions.get_can_undo());
    assert!(!actions.get_can_redo());
    actions.register_action(EditorAction::LengthChange(vec![0], vec![5], 0));
    assert!(actions.get_can_undo());
    {
        let undone = actions.undo_action().unwrap();
        match undone {
            EditorAction::LengthChange(ids, deltas, track) => {
                assert_eq!(ids, &vec![0]);
                assert_eq!(deltas, &vec![-5]);
                assert_eq!(*track, 0);
            }
            _ => panic!("wrong action"),
        }
    }
    assert!(!actions.get_can_undo());
    assert!(actions.get_can_redo());
    {
        let redone = actions.redo_action().unwrap();
        assert!(matches!(redone, EditorAction::LengthChange(_, d, _) if d == &vec![5]));
    }
    assert!(actions.get_can_undo());
    assert!(!actions.get_can_redo());
}

#[test]
fn undo_with_nothing_recorded() {
    let mut actions = EditorActions::new(4);
    assert!(actions.undo_action().is_none());
    assert!(actions.redo_action().is_none());
}

#[test]
fn history_drops_oldest_when_full() {
    let mut actions = EditorActions::new(2);
    actions.register_action(EditorAction::SwapTracks(0, 1));
    actions.register_action(EditorAction::SwapTracks(1, 2));
    actions.register_action(EditorAction::SwapTracks(2, 3));
    assert!(matches!(actions.undo_action(), Some(EditorAction::SwapTracks(2, 3))));
    assert!(matches!(actions.undo_action(), Some(EditorAction::SwapTracks(1, 2))));
    assert!(actions.undo_action().is_none());
}

#[test]
fn registering_drops_undone_actions() {
    let mut actions = EditorActions::new(10);
    actions.register_action(EditorAction::SwapTracks(0, 1));
    actions.register_action(EditorAction::SwapTracks(1, 2));
    actions.undo_action();
    actions.register_action(EditorAction::SwapTracks(5, 6));
    assert!(!actions.get_can_redo());
    assert!(matches!(actions.undo_action(), Some(EditorAction::SwapTracks(5, 6))));
    assert!(matches!(actions.undo_action(), Some(EditorAction::SwapTracks(0, 1))));
}

#[test]
fn bulk_is_inverted_in_reverse_order() {
    let mut actions = EditorActions::new(10);
    actions.register_action(EditorAction::Bulk(vec![
        EditorAction::PlaceNotes(vec![1], None, 0),
        EditorAction::VelocityChange(vec![1], vec![3], 0),
    ]));
    let undone = actions.undo_action().unwrap();
    match undone {
        EditorAction::Bulk(parts) => {
            assert_eq!(parts.len(), 2);
            assert!(matches!(&parts[0], EditorAction::VelocityChange(_, d, _) if d == &vec![-3]));
            assert!(matches!(&parts[1], EditorAction::DeleteNotes(i, None, 0) if i == &vec![1]));
        }
        _ => panic!("wrong action"),
    }
}

#[test]
fn clear_forgets_everything() {
    let mut actions = EditorActions::new(3);
    actions.register_action(EditorAction::AddMeta(vec![0]));
    actions.undo_action();
    actions.clear_actions();
    assert!(!actions.get_can_undo());
    assert!(!actions.get_can_redo());
}

#[test]
fn delete_then_undo_restores_track() {
    let mut editing = NoteEditing::new(vec![vec![n(0, 10, 60), n(10, 10, 62), n(20, 10, 64)]]);
    let mut delete = EditorAction::DeleteNotes(vec![0, 2], None, 0);
    editing.apply_action(&mut delete);
    assert_eq!(editing.notes[0], vec![n(10, 10, 62)]);
    let deleted = match &delete {
        EditorAction::DeleteNotes(_, Some(d), _) => d.clone(),
        _ => panic!("deleted notes not kept"),
    };
    assert_eq!(deleted, vec![n(0, 10, 60), n(20, 10, 64)]);
    let mut undo = match delete {
        EditorAction::DeleteNotes(i, d, t) => EditorAction::PlaceNotes(i, d, t),
        _ => unreachable!(),
    };
    editing.apply_action(&mut undo);
    assert_eq!(editing.notes[0], vec![n(0, 10, 60), n(10, 10, 62), n(20, 10, 64)]);
}

#[test]
fn length_velocity_channel_changes_clamp() {
    let mut editing = NoteEditing::new(vec![vec![n(0, 10, 60)]]);
    let mut a = EditorAction::LengthChange(vec![0], vec![-20], 0);
    editing.apply_action(&mut a);
    assert_eq!(editing.notes[0][0].length, 1);
    assert!(matches!(&a, EditorAction::LengthChange(_, d, _) if d == &vec![-9]));

    let mut v = EditorAction::VelocityChange(vec![0], vec![100], 0);
    editing.apply_action(&mut v);
    assert_eq!(editing.notes[0][0].velocity, 127);
    assert!(matches!(&v, EditorAction::VelocityChange(_, d, _) if d == &vec![27]));

    let mut c = EditorAction::ChannelChange(vec![0], vec![20], 0);
    editing.apply_action(&mut c);
    assert_eq!(editing.notes[0][0].channel, 15);
    assert!(matches!(&c, EditorAction::ChannelChange(_, d, _) if d == &vec![15]));
}

#[test]
fn notes_move_resorts_and_selects() {
    let mut editing = NoteEditing::new(vec![vec![n(0, 10, 60), n(10, 10, 62), n(20, 10, 64)]]);
    let mut mv = EditorAction::NotesMove(vec![0], vec![(25, 1)], 0, true);
    editing.apply_action(&mut mv);
    let starts: Vec<u32> = editing.notes[0].iter().map(|x| x.start).collect();
    assert_eq!(starts, vec![10, 20, 25]);
    assert_eq!(editing.notes[0][2].key, 61);
    assert_eq!(editing.selected_note_ids, vec![2]);
    assert!(matches!(&mv, EditorAction::NotesMove(i, d, 0, true) if i == &vec![2] && d == &vec![(25, 1)]));
}

#[test]
fn inverting_twice_gives_the_action_back() {
    let mut actions = EditorActions::new(4);
    let a = EditorAction::NotesMove(vec![1, 2], vec![(5, -3), (-7, 2)], 1, true);
    let once = actions.invert_action(a);
    assert!(matches!(&once, EditorAction::NotesMove(i, d, 1, true) if i == &vec![1, 2] && d == &vec![(-5, 3), (7, -2)]));
    let twice = actions.invert_action(once);
    assert!(matches!(&twice, EditorAction::NotesMove(i, d, 1, true) if i == &vec![1, 2] && d == &vec![(5, -3), (-7, 2)]));
    assert!(!actions.get_can_undo());
    let b = EditorAction::Bulk(vec![EditorAction::Select(vec![0], 2), EditorAction::AddMeta(vec![3])]);
    let b1 = actions_invert_copy(&b, &mut actions);
    let b2 = actions.invert_action(b1);
    assert!(matches!(&b2, EditorAction::Bulk(v) if matches!(&v[0], EditorAction::Select(i, 2) if i == &vec![0]) && matches!(&v[1], EditorAction::AddMeta(i) if i == &vec![3])));
}

fn actions_invert_copy(a: &EditorAction, actions: &mut EditorActions) -> EditorAction {
    match a {
        EditorAction::Bulk(v) => {
            let parts = v
                .iter()
                .map(|x| match x {
                    EditorAction::Select(i, g) => EditorAction::Select(i.clone(), *g),
                    EditorAction::AddMeta(i) => EditorAction::AddMeta(i.clone()),
                    _ => unreachable!(),
                })
                .collect();
            actions.invert_action(EditorAction::Bulk(parts))
        }
        _ => unreachable!(),
    }
}

#[test]
fn undo_then_redo_gives_back_the_recorded_action() {
    let mut actions = EditorActions::new(4);
    actions.register_action(EditorAction::ChannelChange(vec![0, 4], vec![2, -1], 3));
    {
        let u = actions.undo_action().unwrap();
        assert!(matches!(u, EditorAction::ChannelChange(_, d, 3) if d == &vec![-2, 1]));
    }
    {
        let r = actions.redo_action().unwrap();
        assert!(matches!(r, EditorAction::ChannelChange(i, d, 3) if i == &vec![0, 4] && d == &vec![2, -1]));
    }
    assert!(actions.get_can_undo());
    assert!(!actions.get_can_redo());
    assert!(actions.redo_action().is_none());
}
