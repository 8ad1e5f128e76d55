//! Flags of the note editor's tool state.
use vstd::prelude::*;

verus! {

pub const NOTE_EDIT_FLAGS_NONE: u16 = 0x0;
pub const NOTE_EDIT_MOUSE_OVER_UI: u16 = 0x1;
pub const NOTE_EDIT_MOUSE_OVER_NOTE: u16 = 0x2;
pub const NOTE_EDIT_MOUSE_DOWN_ON_UI: u16 = 0x4;
pub const NOTE_EDIT_ANY_DIALOG_OPEN: u16 = 0x8;
pub const NOTE_EDIT_LENGTH_CHANGE: u16 = 0x10;
pub const NOTE_EDIT_DRAGGING: u16 = 0x20;
pub const NOTE_EDIT_MULTIEDIT: u16 = 0x40;
pub const NOTE_EDIT_IS_EDITING: u16 = 0x80;
pub const NOTE_EDIT_ERASING: u16 = 0x100;
pub const NOTE_EDIT_SYNTH_PLAY: u16 = 0x200;

} // verus!
