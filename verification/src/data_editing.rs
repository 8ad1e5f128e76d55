//! Editing in the data view under the piano roll: a line drawn with the
//! pencil sets the velocities of the notes under it.
use vstd::prelude::*;
use crate::midi_types::{MIDITick, Note};
use crate::timed_seq::is_sorted;
use crate::note_tools::EditorTool;
use crate::view_settings::VS_PianoRoll_DataViewState;

verus! {

pub const DATA_EDIT_FLAGS_NONE: u16 = 0x0;
pub const DATA_EDIT_MOUSE_OVER_UI: u16 = 0x1;
pub const DATA_EDIT_MOUSE_DOWN_ON_UI: u16 = 0x2;
pub const DATA_EDIT_ANY_DIALOG_OPEN: u16 = 0x4;
pub const DATA_EDIT_DRAW_EDIT_LINE: u16 = 0x8;

/// Where the mouse is in the data view (tick, value) and where it was last
/// pressed.
#[derive(Clone, Copy, PartialEq, Eq, Debug)]
pub struct DataEditMouseInfo {
    pub mouse_data_pos: (MIDITick, i16),
    pub last_data_click_pos: (MIDITick, i16),
}

/// The two points of a line, the one with the smaller tick first.
pub open spec fn ordered_points(p1: (MIDITick, i16), p2: (MIDITick, i16)) -> ((MIDITick, i16), (MIDITick, i16)) {
    if p1.0 > p2.0 {
        (p2, p1)
    } else {
        (p1, p2)
    }
}

/// The velocity ramp a pencil line gives: from the first point's tick and
/// value (as a byte) to the second's.
pub open spec fn velocity_ramp(p1: (MIDITick, i16), p2: (MIDITick, i16)) -> (MIDITick, u8, MIDITick, u8) {
    let (a, b) = ordered_points(p1, p2);
    (a.0, a.1 as u8, b.0, b.1 as u8)
}

/// The data view's editing state: the mouse and the flags.
pub struct DataEditing {
    pub mouse_info: DataEditMouseInfo,
    pub flags: u16,
}

impl DataEditing {
    pub fn new() -> (r: Self)
        ensures
            r.flags == DATA_EDIT_FLAGS_NONE,
            r.mouse_info == (DataEditMouseInfo { mouse_data_pos: (0u32, 0i16), last_data_click_pos: (0u32, 0i16) }),
    {
        DataEditing {
            mouse_info: DataEditMouseInfo { mouse_data_pos: (0, 0), last_data_click_pos: (0, 0) },
            flags: DATA_EDIT_FLAGS_NONE,
        }
    }

    /// Sets the bits of `flag` on or off.
    pub fn set_flag(&mut self, flag: u16, value: bool)
        ensures
            final(self).flags == if value { (old(self).flags & !flag) | flag } else { old(self).flags & !flag },
            final(self).mouse_info == old(self).mouse_info,
    {
        let mask: u16 = if value { 0xFFFF } else { 0 };
        let f = self.flags;
        assert(mask & flag == if value { flag } else { 0u16 }) by (bit_vector)
            requires
                mask == if value { 0xFFFFu16 } else { 0u16 },
        ;
        assert(((f & !flag) | 0u16) == (f & !flag)) by (bit_vector);
        self.flags = (f & !flag) | (mask & flag);
    }

    /// Whether any bit of `flag` is on.
    pub fn get_flag(&self, flag: u16) -> (r: bool)
        ensures
            r == (self.flags & flag != 0),
    {
        self.flags & flag != 0
    }

    /// Turns the bits of `flag` off.
    pub fn disable_flag(&mut self, flag: u16)
        ensures
            final(self).flags == old(self).flags & !flag,
            final(self).mouse_info == old(self).mouse_info,
    {
        self.flags = self.flags & !flag;
    }

    /// Remembers the mouse position as the last press.
    pub fn update_last_mouse_data_pos(&mut self)
        ensures
            final(self).mouse_info == (DataEditMouseInfo { last_data_click_pos: old(self).mouse_info.mouse_data_pos, ..old(self).mouse_info }),
            final(self).flags == old(self).flags,
    {
        self.mouse_info.last_data_click_pos = self.mouse_info.mouse_data_pos;
    }

    /// A press in the data view. Over the interface it is only noted; with
    /// a dialog open it is ignored; with the pencil a line starts at the
    /// mouse.
    pub fn on_mouse_down(&mut self, tool: EditorTool)
        ensures
            old(self).flags & DATA_EDIT_MOUSE_OVER_UI != 0 ==> {
                &&& final(self).flags == old(self).flags | DATA_EDIT_MOUSE_DOWN_ON_UI
                &&& final(self).mouse_info == old(self).mouse_info
            },
            old(self).flags & DATA_EDIT_MOUSE_OVER_UI == 0 && (old(self).flags & DATA_EDIT_ANY_DIALOG_OPEN != 0 || !(tool is Pencil)) ==> {
                &&& final(self).flags == old(self).flags
                &&& final(self).mouse_info == old(self).mouse_info
            },
            old(self).flags & DATA_EDIT_MOUSE_OVER_UI == 0 && old(self).flags & DATA_EDIT_ANY_DIALOG_OPEN == 0 && tool is Pencil ==> {
                &&& final(self).flags == old(self).flags | DATA_EDIT_DRAW_EDIT_LINE
                &&& final(self).mouse_info == (DataEditMouseInfo {
                    last_data_click_pos: old(self).mouse_info.mouse_data_pos,
                    ..old(self).mouse_info
                })
            },
    {
        if self.flags & DATA_EDIT_MOUSE_OVER_UI != 0 {
            self.flags = self.flags | DATA_EDIT_MOUSE_DOWN_ON_UI;
            return;
        }
        if self.flags & DATA_EDIT_ANY_DIALOG_OPEN != 0 {
            return;
        }
        match tool {
            EditorTool::Pencil => {
                self.update_last_mouse_data_pos();
                let f = self.flags;
                self.set_flag(DATA_EDIT_DRAW_EDIT_LINE, true);
                assert(((f & !DATA_EDIT_DRAW_EDIT_LINE) | DATA_EDIT_DRAW_EDIT_LINE) == (f | DATA_EDIT_DRAW_EDIT_LINE)) by (bit_vector);
            },
            _ => {},
        }
    }

    /// A mouse move in the data view: no tool does anything with it yet, so
    /// the state stays as it is.
    pub fn on_mouse_move(&mut self, tool: EditorTool)
        ensures
            final(self).flags == old(self).flags,
            final(self).mouse_info == old(self).mouse_info,
    {
        if self.flags & DATA_EDIT_MOUSE_DOWN_ON_UI != 0 {
            return;
        }
        if self.flags & (DATA_EDIT_ANY_DIALOG_OPEN | DATA_EDIT_MOUSE_OVER_UI) != 0 {
            return;
        }
        match tool {
            EditorTool::Pencil => {},
            EditorTool::Eraser => {},
            EditorTool::Selector => {},
        }
    }

    /// A release in the data view. One that began on the interface only
    /// clears that mark. Otherwise, with the pencil, the line ends: when the
    /// data view shows velocities, the ramp between the line's ends (the one
    /// with the smaller tick first) is returned, for the velocities of the
    /// notes under it to be set.
    pub fn on_mouse_up(&mut self, tool: EditorTool, dataview_state: VS_PianoRoll_DataViewState) -> (r: Option<(MIDITick, u8, MIDITick, u8)>)
        ensures
            old(self).flags & DATA_EDIT_MOUSE_DOWN_ON_UI != 0 ==> {
                &&& final(self).flags == old(self).flags & !DATA_EDIT_MOUSE_DOWN_ON_UI
                &&& r is None
            },
            old(self).flags & DATA_EDIT_MOUSE_DOWN_ON_UI == 0 && (old(self).flags & (DATA_EDIT_MOUSE_OVER_UI | DATA_EDIT_ANY_DIALOG_OPEN) != 0 || !(tool is Pencil)) ==> {
                &&& final(self).flags == old(self).flags
                &&& r is None
            },
            old(self).flags & DATA_EDIT_MOUSE_DOWN_ON_UI == 0 && old(self).flags & (DATA_EDIT_MOUSE_OVER_UI | DATA_EDIT_ANY_DIALOG_OPEN) == 0 && tool is Pencil ==> {
                &&& final(self).flags == old(self).flags & !DATA_EDIT_DRAW_EDIT_LINE
                &&& r == if dataview_state is NoteVelocities {
                    Some(velocity_ramp(old(self).mouse_info.last_data_click_pos, old(self).mouse_info.mouse_data_pos))
                } else {
                    None
                }
            },
            final(self).mouse_info == old(self).mouse_info,
    {
        if self.flags & DATA_EDIT_MOUSE_DOWN_ON_UI != 0 {
            self.disable_flag(DATA_EDIT_MOUSE_DOWN_ON_UI);
            return None;
        }
        if self.flags & (DATA_EDIT_MOUSE_OVER_UI | DATA_EDIT_ANY_DIALOG_OPEN) != 0 {
            return None;
        }
        match tool {
            EditorTool::Pencil => self.pencil_mouse_up(dataview_state),
            _ => None,
        }
    }

    /// The pencil's line ends (see [`DataEditing::on_mouse_up`]).
    pub fn pencil_mouse_up(&mut self, dataview_state: VS_PianoRoll_DataViewState) -> (r: Option<(MIDITick, u8, MIDITick, u8)>)
        ensures
            final(self).flags == old(self).flags & !DATA_EDIT_DRAW_EDIT_LINE,
            final(self).mouse_info == old(self).mouse_info,
            r == if dataview_state is NoteVelocities {
                Some(velocity_ramp(old(self).mouse_info.last_data_click_pos, old(self).mouse_info.mouse_data_pos))
            } else {
                None
            },
    {
        self.disable_flag(DATA_EDIT_DRAW_EDIT_LINE);
        let (dp1, dp2) = (self.mouse_info.last_data_click_pos, self.mouse_info.mouse_data_pos);
        let (data_pos_1, data_pos_2) = if dp1.0 > dp2.0 {
            (dp2, dp1)
        } else {
            (dp1, dp2)
        };
        match dataview_state {
            VS_PianoRoll_DataViewState::NoteVelocities => {
                let v1: u8 = #[verifier::truncate] (data_pos_1.1 as u8);
                let v2: u8 = #[verifier::truncate] (data_pos_2.1 as u8);
                Some((data_pos_1.0, v1, data_pos_2.0, v2))
            },
            VS_PianoRoll_DataViewState::PitchBend => None,
            VS_PianoRoll_DataViewState::Hidden => None,
        }
    }
}

/// Where notes starting at `tick` or later begin, on notes in order by
/// start: every note before the position starts earlier, every note from it
/// on starts at `tick` or later (a binary search by start that settles on
/// the first such note).
pub fn first_note_from_tick(notes: &Vec<Note>, tick: MIDITick) -> (r: usize)
    ensures
        r <= notes@.len(),
        is_sorted(notes@) ==> {
            &&& forall|i: int| 0 <= i < r ==> #[trigger] notes@[i].start < tick
            &&& forall|i: int| r <= i < notes@.len() ==> #[trigger] notes@[i].start >= tick
        },
{
    let mut low: usize = 0;
    let mut high: usize = notes.len();
    while low < high
        invariant
            low <= high <= notes@.len(),
            is_sorted(notes@) ==> forall|i: int| 0 <= i < low ==> #[trigger] notes@[i].start < tick,
            is_sorted(notes@) ==> forall|i: int| high <= i < notes@.len() ==> #[trigger] notes@[i].start >= tick,
        decreases high - low,
    {
        let mid = low + (high - low) / 2;
        if notes[mid].start < tick {
            proof {
                if is_sorted(notes@) {
                    assert forall|i: int| 0 <= i < mid + 1 implies #[trigger] notes@[i].start < tick by {
                        assert(notes@[i].start <= notes@[mid as int].start);
                    }
                }
            }
            low = mid + 1;
        } else {
            proof {
                if is_sorted(notes@) {
                    assert forall|i: int| mid <= i < notes@.len() implies #[trigger] notes@[i].start >= tick by {
                        assert(notes@[mid as int].start <= notes@[i].start);
                    }
                }
            }
            high = mid;
        }
    }
    low
}

/// The notes under a velocity ramp from `min_tick` to `max_tick`: those
/// from the first that starts at `min_tick` or later up to (not including)
/// the first that starts at `max_tick` or later (see
/// [`first_note_from_tick`]). Setting their velocities along the ramp is
/// left to the caller, which computes it in fractions.
pub fn notes_under_ramp(notes: &Vec<Note>, min_tick: MIDITick, max_tick: MIDITick) -> (r: (usize, usize))
    ensures
        r.0 <= notes@.len(),
        r.1 <= notes@.len(),
        is_sorted(notes@) ==> {
            &&& forall|i: int| 0 <= i < r.0 ==> #[trigger] notes@[i].start < min_tick
            &&& forall|i: int| r.0 <= i < notes@.len() ==> #[trigger] notes@[i].start >= min_tick
            &&& forall|i: int| 0 <= i < r.1 ==> #[trigger] notes@[i].start < max_tick
            &&& forall|i: int| r.1 <= i < notes@.len() ==> #[trigger] notes@[i].start >= max_tick
        },
{
    (first_note_from_tick(notes, min_tick), first_note_from_tick(notes, max_tick))
}

} // verus!
