use andromeda::midi_types::Note;
use andromeda::shared_editing::{SharedClipboard, SharedSelectedNotes};

fn n(start: u32, key: u8) -> Note {
    Note { start, length: 10, channel: 0, key, velocity: 100 }
}

#[test]
fn selection_add_sorts_and_dedups() {
    let mut sel = SharedSelectedNotes::default();
    sel.set_selected_in_track(vec![5, 1], 2);
    sel.add_selected_to_track(vec![3, 1, 7, 3], 2);
    assert_eq!(sel.get_selected_ids_in_track(2), Some(&vec![1, 3, 5, 7]));
    assert_eq!(sel.get_num_selected_in_track(2), 4);
    assert!(sel.selected_ids_in_track_contains(2, 7));
    assert!(!sel.selected_ids_in_track_contains(2, 2));
    assert!(!sel.selected_ids_in_track_contains(9, 1));
    assert_eq!(sel.get_num_selected_in_track(9), 0);
}

#[test]
fn selection_tracks_in_order() {
    let mut sel = SharedSelectedNotes::default();
    sel.set_selected_in_track(vec![0], 4);
    sel.set_selected_in_track(vec![1], 1);
    sel.set_selected_in_track(vec![], 3);
    assert_eq!(sel.get_active_selected_tracks(), vec![1, 3, 4]);
    let mut pairs: Vec<(u16, Vec<usize>)> = sel.get_selected().into_iter().map(|(t, v)| (t, v.clone())).collect();
    pairs.sort();
    assert_eq!(pairs, vec![(1, vec![1]), (3, vec![]), (4, vec![0])]);
}

#[test]
fn selection_take_and_clear() {
    let mut sel = SharedSelectedNotes::default();
    assert!(!sel.is_any_note_selected());
    sel.set_selected_in_track(vec![], 0);
    assert!(!sel.is_any_note_selected());
    sel.set_selected_in_track(vec![2, 3], 1);
    assert!(sel.is_any_note_selected());
    assert_eq!(sel.take_selected_from_track(1), vec![2, 3]);
    assert_eq!(sel.get_selected_ids_in_track(1), Some(&vec![]));
    assert_eq!(sel.take_selected_from_track(7), Vec::<usize>::new());
    assert_eq!(sel.get_selected_ids_in_track(7), Some(&vec![]));
    sel.set_selected_in_track(vec![9], 5);
    let mut all = sel.take_selected_from_all();
    all.sort();
    assert_eq!(all, vec![(0, vec![]), (1, vec![]), (5, vec![9]), (7, vec![])]);
    assert!(sel.get_active_selected_tracks().is_empty());
    sel.set_selected_in_track(vec![1], 1);
    sel.clear_selected();
    assert!(sel.get_selected_ids_in_track(1).is_none());
}

#[test]
fn selection_mut_access_creates_entry() {
    let mut sel = SharedSelectedNotes::default();
    sel.get_selected_ids_mut(3).push(8);
    assert_eq!(sel.get_selected_ids_in_track(3), Some(&vec![8]));
}

#[test]
fn clipboard_overrides_and_sorts() {
    let mut clip = SharedClipboard::default();
    assert!(clip.is_clipboard_empty());
    clip.move_notes_to_clipboard(vec![n(30, 1)], 2, false);
    clip.move_notes_to_clipboard(vec![n(10, 2), n(40, 3)], 0, false);
    let got = clip.get_notes_from_clipboard();
    assert_eq!(got, vec![(0, vec![n(10, 2), n(40, 3)]), (2, vec![n(30, 1)])]);
    assert_eq!(clip.get_clipboard_start_tick(), 10);
    clip.move_notes_to_clipboard(vec![n(50, 4)], 1, true);
    assert_eq!(clip.get_notes_from_clipboard(), vec![(1, vec![n(50, 4)])]);
    clip.clear_clipboard();
    assert!(clip.is_clipboard_empty());
    assert_eq!(clip.get_clipboard_start_tick(), u32::MAX);
}

#[test]
fn clipboard_multi_later_pairs_win() {
    let mut clip = SharedClipboard::default();
    clip.move_notes_to_clipboard(vec![n(0, 0)], 9, false);
    clip.move_multi_notes_to_clipboard(vec![vec![n(5, 1)], vec![n(6, 2)], vec![n(7, 3)]], vec![1, 1]);
    assert_eq!(clip.get_notes_from_clipboard(), vec![(1, vec![n(6, 2)])]);
    clip.offset_from_playhead = -5;
    assert_eq!(clip.offset_from_playhead, -5);
}
