use andromeda::actions::{EditorAction, EditorActions};
use andromeda::edit_functions::{
    EditFunction, EditFunctions, chop_notes, glue_notes, slice_notes_at_tick, remove_overlaps, place_stretched_notes,
};
use andromeda::midi_types::Note;

fn nk(start: u32, length: u32, key: u8) -> Note {
    Note { start, length, channel: 0, key, velocity: 100 }
}

#[test]
fn chop_cuts_long_notes_into_pieces() {
    let mut notes = vec![nk(0, 25, 60), nk(30, 5, 62)];
    let (ids, changes) = chop_notes(&mut notes, &vec![0, 1], 10);
    assert_eq!(notes, vec![nk(0, 10, 60), nk(10, 10, 60), nk(20, 5, 60), nk(30, 5, 62)]);
    assert_eq!(ids, vec![1, 2]);
    assert_eq!(changes, vec![-15]);
}

#[test]
fn chop_through_apply_function_records_bulk() {
    let mut fns = EditFunctions::default();
    let mut actions = EditorActions::new(10);
    let mut notes = vec![nk(0, 25, 60), nk(30, 5, 62)];
    let mut sel = vec![0];
    fns.apply_function(&mut notes, &mut sel, EditFunction::Chop(vec![0], 10), 3, &mut actions);
    assert_eq!(notes.len(), 4);
    assert_eq!(sel, vec![0]);
    match actions.undo_action().unwrap() {
        EditorAction::Bulk(parts) => {
            assert!(matches!(&parts[0], EditorAction::LengthChange(i, d, 3) if i == &vec![0] && d == &vec![15]));
            assert!(matches!(&parts[1], EditorAction::DeleteNotes(i, None, 3) if i == &vec![1, 2]));
        }
        _ => panic!("wrong action"),
    }
}

#[test]
fn glue_joins_close_notes_of_same_key() {
    let a = nk(0, 10, 60);
    let b = nk(5, 3, 61);
    let c = nk(12, 10, 60);
    let d = nk(40, 5, 60);
    let mut notes = vec![a, b, c, d];
    let (removed_ids, removed, new_ids, changes) = glue_notes(&mut notes, vec![0, 1, 2, 3], 5, true);
    assert_eq!(notes, vec![nk(0, 22, 60), b, d]);
    assert_eq!(removed_ids, vec![2]);
    assert_eq!(removed, vec![c]);
    assert_eq!(new_ids, vec![0, 1, 2]);
    assert_eq!(changes, vec![12, 0, 0]);
}

#[test]
fn glue_keeps_channels_apart_when_asked() {
    let a = Note { start: 0, length: 10, channel: 0, key: 60, velocity: 90 };
    let b = Note { start: 10, length: 10, channel: 1, key: 60, velocity: 90 };
    let mut apart = vec![a, b];
    let (removed_ids, _, _, _) = glue_notes(&mut apart, vec![0, 1], 0, true);
    assert!(removed_ids.is_empty());
    assert_eq!(apart, vec![a, b]);
    let mut together = vec![a, b];
    let (removed_ids, _, _, changes) = glue_notes(&mut together, vec![0, 1], 0, false);
    assert_eq!(removed_ids, vec![1]);
    assert_eq!(together, vec![Note { length: 20, ..a }]);
    assert_eq!(changes, vec![10]);
}

#[test]
fn glue_with_no_ids_records_nothing() {
    let mut fns = EditFunctions::default();
    let mut actions = EditorActions::new(10);
    let mut notes = vec![nk(0, 10, 60)];
    let mut sel = vec![];
    fns.apply_function(&mut notes, &mut sel, EditFunction::Glue(vec![], 5, true), 0, &mut actions);
    assert_eq!(notes, vec![nk(0, 10, 60)]);
    assert!(!actions.get_can_undo());
}

#[test]
fn slice_cuts_notes_across_tick() {
    let mut notes = vec![nk(0, 20, 60), nk(5, 2, 61), nk(10, 20, 62)];
    let (new_ids, affected, changes) = slice_notes_at_tick(&mut notes, vec![0, 1, 2], 12);
    assert_eq!(notes, vec![nk(0, 12, 60), nk(5, 2, 61), nk(10, 2, 62), nk(12, 8, 60), nk(12, 18, 62)]);
    assert_eq!(new_ids, vec![3, 4]);
    assert_eq!(affected, vec![0, 2]);
    assert_eq!(changes, vec![-8, -18]);
}

#[test]
fn remove_overlaps_drops_duplicates() {
    let mut notes = vec![nk(0, 10, 60), nk(0, 5, 60), nk(0, 10, 61), nk(10, 10, 60)];
    let (idx, removed) = remove_overlaps(&mut notes, &vec![0, 1, 2, 3]);
    assert_eq!(idx, vec![1]);
    assert_eq!(removed, vec![nk(0, 5, 60)]);
    assert_eq!(notes, vec![nk(0, 10, 60), nk(0, 10, 61), nk(10, 10, 60)]);
}

#[test]
fn remove_overlaps_records_only_when_something_went() {
    let mut fns = EditFunctions::default();
    let mut actions = EditorActions::new(10);
    let mut notes = vec![nk(0, 10, 60), nk(10, 10, 60)];
    let mut sel = vec![0, 1];
    fns.apply_function(&mut notes, &mut sel, EditFunction::RemoveOverlaps, 0, &mut actions);
    assert!(!actions.get_can_undo());
    let mut notes = vec![nk(0, 10, 60), nk(0, 10, 60)];
    fns.apply_function(&mut notes, &mut sel, EditFunction::RemoveOverlaps, 1, &mut actions);
    assert_eq!(notes, vec![nk(0, 10, 60)]);
    assert!(matches!(actions.undo_action(), Some(EditorAction::PlaceNotes(i, Some(_), 1)) if i == &vec![1]));
}

#[test]
fn edits_that_record_nothing_leave_a_zero_capacity_history() {
    let mut notes = vec![nk(0, 10, 60), nk(20, 10, 61)];
    let before = notes.clone();
    let mut sel: Vec<usize> = vec![];
    let mut actions = EditorActions::new(0);
    let mut fns = EditFunctions::default();
    fns.apply_function(&mut notes, &mut sel, EditFunction::Glue(vec![], 5, true), 0, &mut actions);
    fns.apply_function(&mut notes, &mut sel, EditFunction::RemoveOverlaps, 0, &mut actions);
    assert_eq!(notes, before);
    assert!(sel.is_empty());
    assert!(!actions.get_can_undo());
    assert!(!actions.get_can_redo());
}

#[test]
fn chop_keeps_order_and_total_length() {
    let mut notes = vec![nk(0, 25, 60), nk(5, 7, 61), nk(30, 21, 62)];
    let total_before: u32 = notes.iter().map(|n| n.length).sum();
    chop_notes(&mut notes, &vec![0, 1, 2], 10);
    let total_after: u32 = notes.iter().map(|n| n.length).sum();
    assert_eq!(total_after, total_before);
    // 25 ticks make 3 notes, 7 ticks stay 1, 21 ticks make 3
    assert_eq!(notes.len(), 3 + 2 + 2);
    assert!(notes.windows(2).all(|w| w[0].start <= w[1].start));
    assert!(notes.iter().all(|n| n.length <= 10));
}

#[test]
fn chop_adds_all_but_one_of_each_notes_pieces() {
    let mut notes = vec![nk(0, 25, 60), nk(100, 30, 61), nk(200, 10, 62), nk(300, 11, 63)];
    chop_notes(&mut notes, &vec![0, 1, 2, 3], 10);
    // ceil(25/10) - 1 + ceil(30/10) - 1 + 0 + ceil(11/10) - 1
    assert_eq!(notes.len(), 4 + 2 + 2 + 0 + 1);
}

#[test]
fn chop_by_zero_ticks_leaves_empty_notes() {
    let mut notes = vec![nk(0, 0, 60), nk(5, 0, 61)];
    let (ids, changes) = chop_notes(&mut notes, &vec![0, 1], 0);
    assert_eq!(notes, vec![nk(0, 0, 60), nk(5, 0, 61)]);
    assert!(ids.is_empty());
    assert!(changes.is_empty());
}

#[test]
fn chop_reads_no_end_of_a_note_it_does_not_cut() {
    let mut notes = vec![nk(0, 25, 60), nk(u32::MAX - 1, 5, 61)];
    let (ids, changes) = chop_notes(&mut notes, &vec![0, 1], 10);
    assert_eq!(notes, vec![nk(0, 10, 60), nk(10, 10, 60), nk(20, 5, 60), nk(u32::MAX - 1, 5, 61)]);
    assert_eq!(ids, vec![1, 2]);
    assert_eq!(changes, vec![-15]);
}

#[test]
fn stretched_notes_go_back_in_order_and_are_recorded() {
    let mut actions = EditorActions::new(10);
    let mut notes = vec![nk(0, 10, 60), nk(10, 10, 62), nk(20, 10, 64)];
    place_stretched_notes(&mut notes, vec![1, 2], &vec![(10, 20), (30, 20)], 3, &mut actions);
    assert_eq!(notes, vec![nk(0, 10, 60), nk(10, 20, 62), nk(30, 20, 64)]);
    match actions.undo_action().unwrap() {
        EditorAction::Bulk(parts) => {
            assert!(matches!(&parts[0], EditorAction::NotesMove(i, d, 3, true) if i == &vec![1, 2] && d == &vec![(0, 0), (-10, 0)]));
            assert!(matches!(&parts[1], EditorAction::LengthChange(i, d, 3) if i == &vec![1, 2] && d == &vec![-10, -10]));
        }
        _ => panic!("wrong action"),
    }
}
