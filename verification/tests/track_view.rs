use andromeda::actions::{EditorAction, EditorActions};
use andromeda::midi_types::{MIDITrack, Note};
use andromeda::note_tools::EditorTool;
use andromeda::shared_editing::{SharedClipboard, SharedSelectedNotes};
use andromeda::track_view_editing::{
    get_note_ids_in_region, TrackEditMouseInfo, TrackEditing, TRACK_EDIT_MOUSE_DOWN_ON_UI,
    TRACK_EDIT_MOUSE_OVER_UI, TRACK_EDIT_SELECTION_MOVE, TRACK_EDIT_SHIFT_DOWN,
};

fn n(start: u32, length: u32, key: u8) -> Note {
    Note { start, length, channel: 0, key, velocity: 100 }
}

fn track(notes: Vec<Note>) -> MIDITrack {
    MIDITrack::new(notes, vec![])
}

fn three_tracks() -> Vec<MIDITrack> {
    vec![track(vec![n(0, 10, 60), n(50, 10, 62)]), track(vec![n(20, 5, 64)]), track(vec![])]
}

fn mouse_at(tick: u32, trk: u16) -> TrackEditMouseInfo {
    TrackEditMouseInfo { mouse_midi_track_pos: (tick, trk), last_mouse_click_pos: (0, 0) }
}

fn notes_of(t: &MIDITrack) -> Vec<(u32, u32, u8)> {
    t.notes.iter().map(|x| (x.start, x.length, x.key)).collect()
}

#[test]
fn region_ids_per_track() {
    let tracks = three_tracks();
    assert_eq!(get_note_ids_in_region(&tracks, (0, 30, 0, 3)), Some(vec![(0, vec![0]), (1, vec![0])]));
    assert_eq!(get_note_ids_in_region(&tracks, (0, 30, 1, 3)), Some(vec![(1, vec![0])]));
    assert_eq!(get_note_ids_in_region(&tracks, (5, 5, 0, 3)), None);
    assert_eq!(get_note_ids_in_region(&tracks, (0, 30, 3, 4)), None);
    assert_eq!(get_note_ids_in_region(&tracks, (100, 200, 0, 3)), None);
}

#[test]
fn track_selection_range_is_ordered() {
    let mut te = TrackEditing::new();
    te.selection_range = (40, 10, 3, 1);
    assert_eq!(te.get_selection_range(), (10, 40, 1, 4));
}

#[test]
fn box_select_across_tracks() {
    let mut tracks = three_tracks();
    let mut sel = SharedSelectedNotes::default();
    let mut te = TrackEditing::new();
    let mut curr: u16 = 5;
    let mut mouse = mouse_at(0, 0);
    let r = te.on_mouse_down(EditorTool::Selector, &mut mouse, &mut tracks, &mut sel, &mut curr, (0, 1));
    assert_eq!(r, Some(0));
    assert_eq!(curr, 0);
    // the empty last track was dropped when the piano roll switched tracks
    assert_eq!(tracks.len(), 2);
    assert!(te.draw_select_box);
    assert_eq!(te.selection_range, (0, 0, 0, 0));

    mouse.mouse_midi_track_pos = (30, 1);
    te.on_mouse_move(EditorTool::Selector, &mouse, (0, 1));
    assert_eq!(te.selection_range, (0, 30, 0, 1));

    te.on_mouse_up(EditorTool::Selector, &mut tracks, &mut sel);
    assert!(te.has_selection);
    assert!(!te.draw_select_box);
    assert_eq!(sel.get_selected_ids_in_track(0), Some(&vec![0]));
    assert_eq!(sel.get_selected_ids_in_track(1), Some(&vec![0]));
}

#[test]
fn box_select_with_shift_adds() {
    let mut tracks = three_tracks();
    let mut sel = SharedSelectedNotes::default();
    sel.set_selected_in_track(vec![1], 0);
    let mut te = TrackEditing::new();
    te.flags = TRACK_EDIT_SHIFT_DOWN;
    let mut curr: u16 = 0;
    let mut mouse = mouse_at(15, 1);
    te.on_mouse_down(EditorTool::Selector, &mut mouse, &mut tracks, &mut sel, &mut curr, (0, 1));
    assert_eq!(curr, 1);
    assert_eq!(sel.get_selected_ids_in_track(0), Some(&vec![1]));
    mouse.mouse_midi_track_pos = (30, 1);
    te.on_mouse_move(EditorTool::Selector, &mouse, (0, 1));
    te.on_mouse_up(EditorTool::Selector, &mut tracks, &mut sel);
    assert_eq!(sel.get_selected_ids_in_track(0), Some(&vec![1]));
    assert_eq!(sel.get_selected_ids_in_track(1), Some(&vec![0]));
}

#[test]
fn box_without_notes_clears_selection() {
    let mut tracks = three_tracks();
    let mut sel = SharedSelectedNotes::default();
    sel.set_selected_in_track(vec![0], 0);
    let mut te = TrackEditing::new();
    let mut curr: u16 = 0;
    let mut mouse = mouse_at(100, 0);
    te.on_mouse_down(EditorTool::Selector, &mut mouse, &mut tracks, &mut sel, &mut curr, (0, 1));
    assert!(!sel.is_any_note_selected());
    mouse.mouse_midi_track_pos = (200, 0);
    te.on_mouse_move(EditorTool::Selector, &mouse, (0, 1));
    te.on_mouse_up(EditorTool::Selector, &mut tracks, &mut sel);
    assert!(!te.has_selection);
    assert!(!sel.is_any_note_selected());
}

#[test]
fn press_inside_selection_picks_it_up_and_release_puts_it_back() {
    let mut tracks = three_tracks();
    let mut sel = SharedSelectedNotes::default();
    sel.set_selected_in_track(vec![0], 0);
    sel.set_selected_in_track(vec![0], 1);
    let mut te = TrackEditing::new();
    te.has_selection = true;
    te.selection_range = (0, 30, 0, 1);
    let mut curr: u16 = 0;
    let mut mouse = mouse_at(5, 0);
    te.on_mouse_down(EditorTool::Selector, &mut mouse, &mut tracks, &mut sel, &mut curr, (0, 1));
    assert!(te.flags & TRACK_EDIT_SELECTION_MOVE != 0);
    assert_eq!(mouse.last_mouse_click_pos, (5, 0));
    assert_eq!(notes_of(&tracks[0]), vec![(50, 10, 62)]);
    assert!(tracks[1].notes.is_empty());
    assert_eq!(te.ghost_notes.len(), 2);
    assert!(!sel.is_any_note_selected());

    mouse.mouse_midi_track_pos = (9, 0);
    te.on_mouse_move(EditorTool::Selector, &mouse, (0, 1));
    assert_eq!(te.selection_range, (0, 30, 0, 1));

    te.on_mouse_up(EditorTool::Selector, &mut tracks, &mut sel);
    assert!(te.ghost_notes.is_empty());
    assert_eq!(notes_of(&tracks[0]), vec![(0, 10, 60), (50, 10, 62)]);
    assert_eq!(notes_of(&tracks[1]), vec![(20, 5, 64)]);
    assert_eq!(sel.get_selected_ids_in_track(0), Some(&vec![0]));
    assert_eq!(sel.get_selected_ids_in_track(1), Some(&vec![0]));
}

#[test]
fn press_on_interface_is_only_noted() {
    let mut tracks = three_tracks();
    let mut sel = SharedSelectedNotes::default();
    let mut te = TrackEditing::new();
    te.flags = TRACK_EDIT_MOUSE_OVER_UI;
    let mut curr: u16 = 2;
    let mut mouse = mouse_at(10, 0);
    let r = te.on_mouse_down(EditorTool::Selector, &mut mouse, &mut tracks, &mut sel, &mut curr, (0, 1));
    assert_eq!(r, None);
    assert_eq!(curr, 2);
    assert_eq!(tracks.len(), 3);
    assert!(te.flags & TRACK_EDIT_MOUSE_DOWN_ON_UI != 0);
    te.flags = TRACK_EDIT_MOUSE_DOWN_ON_UI;
    te.on_mouse_up(EditorTool::Selector, &mut tracks, &mut sel);
    assert_eq!(te.flags, 0);
}

#[test]
fn other_tools_only_switch_track() {
    let mut tracks = three_tracks();
    let mut sel = SharedSelectedNotes::default();
    let mut te = TrackEditing::new();
    let mut curr: u16 = 0;
    let mut mouse = mouse_at(7, 4);
    let r = te.on_mouse_down(EditorTool::Pencil, &mut mouse, &mut tracks, &mut sel, &mut curr, (0, 1));
    assert_eq!(r, Some(7));
    assert_eq!(curr, 4);
    assert_eq!(tracks.len(), 5);
    assert!(!te.draw_select_box);
}

#[test]
fn right_press_remembers_track() {
    let mut te = TrackEditing::new();
    te.on_right_mouse_down(&mouse_at(3, 4));
    assert_eq!(te.right_clicked_track, 4);
    te.flags = TRACK_EDIT_MOUSE_OVER_UI;
    te.on_right_mouse_down(&mouse_at(3, 9));
    assert_eq!(te.right_clicked_track, 4);
}

#[test]
fn snapped_mouse_position() {
    let te = TrackEditing::new();
    // a quarter note at 960 ticks per quarter
    assert_eq!(te.get_mouse_midi_pos_snapped(&mouse_at(1000, 2), (1, 4)), (960, 2));
    assert_eq!(te.get_mouse_midi_pos_snapped(&mouse_at(1500, 2), (1, 4)), (1920, 2));
    assert_eq!(te.get_mouse_midi_pos_snapped(&mouse_at(1001, 0), (0, 4)), (1001, 0));
}

#[test]
fn copy_then_paste_into_new_track() {
    let mut tracks = vec![track(vec![n(100, 10, 60)])];
    let mut sel = SharedSelectedNotes::default();
    sel.set_selected_in_track(vec![0], 0);
    let mut cb = SharedClipboard::default();
    let mut te = TrackEditing::new();
    te.copy_notes(&tracks, &sel, &mut cb, 0);
    assert_eq!(cb.get_offset_from_playhead(), -1);
    let copied = cb.get_notes_from_clipboard();
    assert_eq!(copied.len(), 1);
    assert_eq!(copied[0].0, 0);
    assert_eq!(copied[0].1, vec![n(100, 10, 60)]);

    let mut actions = EditorActions::new(8);
    te.paste_notes(1, &mut tracks, &mut sel, &cb, 0, &mut actions);
    assert_eq!(tracks.len(), 2);
    assert_eq!(notes_of(&tracks[0]), vec![(100, 10, 60)]);
    assert_eq!(notes_of(&tracks[1]), vec![(99, 10, 60)]);
    assert_eq!(sel.get_selected_ids_in_track(1), Some(&vec![0]));
    assert!(actions.get_can_undo());
    match actions.undo_action().unwrap() {
        EditorAction::Bulk(v) => {
            assert_eq!(v.len(), 2);
            assert!(matches!(&v[0], EditorAction::DeleteNotes(ids, None, 1) if ids == &vec![0]));
            assert!(matches!(&v[1], EditorAction::RemoveTrack(1, None, false)));
        }
        _ => panic!("expected one bulk action"),
    }
}

#[test]
fn cut_then_paste_at_playhead() {
    let mut tracks = vec![track(vec![n(0, 10, 60), n(20, 10, 62)])];
    let mut sel = SharedSelectedNotes::default();
    sel.set_selected_in_track(vec![1], 0);
    let mut cb = SharedClipboard::default();
    let mut actions = EditorActions::new(8);
    let mut te = TrackEditing::new();
    te.cut_notes(&mut tracks, &mut sel, &mut cb, 50, &mut actions);
    assert_eq!(notes_of(&tracks[0]), vec![(0, 10, 60)]);
    assert_eq!(sel.get_selected_ids_in_track(0), Some(&vec![]));
    assert_eq!(cb.get_offset_from_playhead(), -51);
    let copied = cb.get_notes_from_clipboard();
    assert_eq!(copied[0].1, vec![n(20, 10, 62)]);
    match actions.undo_action().unwrap() {
        EditorAction::Bulk(v) => {
            assert_eq!(v.len(), 1);
            assert!(matches!(&v[0], EditorAction::PlaceNotes(ids, Some(ns), 0) if ids == &vec![1] && ns == &vec![n(20, 10, 62)]));
        }
        _ => panic!("expected one bulk action"),
    }

    let mut actions2 = EditorActions::new(8);
    te.paste_notes(0, &mut tracks, &mut sel, &cb, 50, &mut actions2);
    assert_eq!(notes_of(&tracks[0]), vec![(0, 10, 60), (19, 10, 62)]);
    assert_eq!(sel.get_selected_ids_in_track(0), Some(&vec![1]));
}

#[test]
fn paste_of_empty_clipboard_does_nothing() {
    let mut tracks = vec![track(vec![n(0, 10, 60)])];
    let mut sel = SharedSelectedNotes::default();
    let cb = SharedClipboard::default();
    let mut actions = EditorActions::new(8);
    let mut te = TrackEditing::new();
    te.paste_notes(3, &mut tracks, &mut sel, &cb, 0, &mut actions);
    assert_eq!(tracks.len(), 1);
    assert!(!sel.is_any_note_selected());
    assert!(!actions.get_can_undo());
}

#[test]
fn deselect_drops_selection() {
    let mut sel = SharedSelectedNotes::default();
    sel.set_selected_in_track(vec![0, 2], 1);
    let mut te = TrackEditing::new();
    te.has_selection = true;
    te.deselect_all(&mut sel);
    assert!(!te.has_selection);
    assert!(!sel.is_any_note_selected());
}

#[test]
fn delete_selection_in_every_track() {
    let mut tracks = vec![track(vec![n(0, 10, 60), n(10, 10, 61)]), track(vec![n(5, 5, 62)])];
    let mut sel = SharedSelectedNotes::default();
    sel.set_selected_in_track(vec![1], 0);
    sel.set_selected_in_track(vec![], 1);
    let mut actions = EditorActions::new(8);
    let mut te = TrackEditing::new();
    te.has_selection = true;
    te.delete_selection(&mut tracks, &mut sel, &mut actions);
    assert_eq!(notes_of(&tracks[0]), vec![(0, 10, 60)]);
    assert_eq!(notes_of(&tracks[1]), vec![(5, 5, 62)]);
    assert!(!te.has_selection);
    assert!(sel.get_selected_ids_in_track(0).is_none());
    match actions.undo_action().unwrap() {
        EditorAction::Bulk(v) => {
            assert_eq!(v.len(), 2);
            assert!(matches!(&v[0], EditorAction::PlaceNotes(ids, Some(ns), 1) if ids.is_empty() && ns.is_empty()));
            assert!(matches!(&v[1], EditorAction::PlaceNotes(ids, Some(ns), 0) if ids == &vec![1] && ns == &vec![n(10, 10, 61)]));
        }
        _ => panic!("expected one bulk action"),
    }
}

#[test]
fn delete_without_selection_records_empty_action() {
    let mut tracks = vec![track(vec![n(0, 10, 60)])];
    let mut sel = SharedSelectedNotes::default();
    let mut actions = EditorActions::new(8);
    let mut te = TrackEditing::new();
    te.delete_selection(&mut tracks, &mut sel, &mut actions);
    assert_eq!(notes_of(&tracks[0]), vec![(0, 10, 60)]);
    assert!(matches!(actions.undo_action().unwrap(), EditorAction::Bulk(v) if v.is_empty()));
}
