use andromeda::data_editing::{
    DataEditing, DATA_EDIT_ANY_DIALOG_OPEN, DATA_EDIT_DRAW_EDIT_LINE, DATA_EDIT_MOUSE_DOWN_ON_UI,
    DATA_EDIT_MOUSE_OVER_UI,
};
use andromeda::data_editing::{first_note_from_tick, notes_under_ramp};
use andromeda::midi_types::Note;
use andromeda::note_tools::EditorTool;
use andromeda::view_settings::VS_PianoRoll_DataViewState;

#[test]
fn pencil_line_gives_velocity_ramp() {
    let mut de = DataEditing::new();
    de.mouse_info.mouse_data_pos = (960, 100);
    de.on_mouse_down(EditorTool::Pencil);
    assert_eq!(de.mouse_info.last_data_click_pos, (960, 100));
    assert!(de.get_flag(DATA_EDIT_DRAW_EDIT_LINE));
    de.mouse_info.mouse_data_pos = (0, 20);
    de.on_mouse_move(EditorTool::Pencil);
    let r = de.on_mouse_up(EditorTool::Pencil, VS_PianoRoll_DataViewState::NoteVelocities);
    assert_eq!(r, Some((0, 20, 960, 100)));
    assert!(!de.get_flag(DATA_EDIT_DRAW_EDIT_LINE));
}

#[test]
fn pencil_line_without_velocity_view() {
    let mut de = DataEditing::new();
    de.mouse_info.mouse_data_pos = (10, 5);
    de.on_mouse_down(EditorTool::Pencil);
    de.mouse_info.mouse_data_pos = (20, 6);
    assert_eq!(de.on_mouse_up(EditorTool::Pencil, VS_PianoRoll_DataViewState::PitchBend), None);
    assert_eq!(de.flags, 0);
}

#[test]
fn press_over_interface_and_dialogs() {
    let mut de = DataEditing::new();
    de.flags = DATA_EDIT_MOUSE_OVER_UI;
    de.on_mouse_down(EditorTool::Pencil);
    assert_eq!(de.flags, DATA_EDIT_MOUSE_OVER_UI | DATA_EDIT_MOUSE_DOWN_ON_UI);
    assert_eq!(de.on_mouse_up(EditorTool::Pencil, VS_PianoRoll_DataViewState::NoteVelocities), None);
    assert_eq!(de.flags, DATA_EDIT_MOUSE_OVER_UI);

    let mut de = DataEditing::new();
    de.flags = DATA_EDIT_ANY_DIALOG_OPEN;
    de.mouse_info.mouse_data_pos = (7, 7);
    de.on_mouse_down(EditorTool::Pencil);
    assert_eq!(de.flags, DATA_EDIT_ANY_DIALOG_OPEN);
    assert_eq!(de.mouse_info.last_data_click_pos, (0, 0));
}

#[test]
fn other_tools_do_nothing() {
    let mut de = DataEditing::new();
    de.mouse_info.mouse_data_pos = (7, 7);
    de.on_mouse_down(EditorTool::Selector);
    assert_eq!(de.flags, 0);
    assert_eq!(de.on_mouse_up(EditorTool::Eraser, VS_PianoRoll_DataViewState::NoteVelocities), None);
}

#[test]
fn flag_setting() {
    let mut de = DataEditing::new();
    de.set_flag(DATA_EDIT_DRAW_EDIT_LINE | DATA_EDIT_MOUSE_OVER_UI, true);
    assert_eq!(de.flags, 0x9);
    de.set_flag(DATA_EDIT_MOUSE_OVER_UI, false);
    assert_eq!(de.flags, 0x8);
    de.disable_flag(DATA_EDIT_DRAW_EDIT_LINE);
    assert_eq!(de.flags, 0);
}

#[test]
fn notes_under_a_ramp() {
    let n = |s: u32| Note { start: s, length: 5, channel: 0, key: 60, velocity: 100 };
    let notes = vec![n(0), n(10), n(10), n(20), n(30)];
    assert_eq!(first_note_from_tick(&notes, 10), 1);
    assert_eq!(first_note_from_tick(&notes, 11), 3);
    assert_eq!(first_note_from_tick(&notes, 0), 0);
    assert_eq!(first_note_from_tick(&notes, 31), 5);
    assert_eq!(notes_under_ramp(&notes, 5, 25), (1, 4));
    assert_eq!(notes_under_ramp(&vec![], 5, 25), (0, 0));
}
