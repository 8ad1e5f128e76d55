//! How the editor shows things: the view being drawn, how notes are
//! colored, and the piano roll's onion skin and data view.
use vstd::prelude::*;

verus! {

/// Which view draws the project.
#[derive(Clone, Copy, PartialEq, Eq, Structural, Debug)]
pub enum RenderType {
    PianoRoll,
    TrackView,
}

/// What picks a note's color.
#[derive(Clone, Copy, PartialEq, Eq, Structural, Debug)]
pub enum NoteColorIndexing {
    Channel,
    Track,
    ChannelTrack,
}

impl Default for NoteColorIndexing {
    /// Notes are colored by channel unless chosen otherwise.
    fn default() -> (r: Self)
        ensures
            r == NoteColorIndexing::Channel,
    {
        NoteColorIndexing::Channel
    }
}

/// A note's track and channel from their packed form: the channel in the
/// low four bits, the track above them.
pub fn decode_track_channel(trk_chan: usize) -> (r: (usize, usize))
    ensures
        r == (trk_chan / 16, trk_chan % 16),
{
    assert(trk_chan >> 4usize == trk_chan / 16) by (bit_vector);
    assert(trk_chan & 0xFusize == trk_chan % 16) by (bit_vector);
    (trk_chan >> 4, trk_chan & 0xF)
}

/// The palette entry (one of 16) of a note with packed track and channel
/// `trk_chan`: its channel, its track, or both added up, each taken modulo
/// 16.
pub open spec fn color_index_spec(index_type: NoteColorIndexing, trk_chan: usize) -> int {
    let trk = trk_chan / 16;
    let chn = trk_chan % 16;
    match index_type {
        NoteColorIndexing::Channel => chn as int,
        NoteColorIndexing::Track => trk as int % 16,
        NoteColorIndexing::ChannelTrack => (trk + chn) % 16,
    }
}

impl NoteColorIndexing {
    /// The palette entry of a note (see [`color_index_spec`]).
    pub fn get_index(&self, trk_chan: usize) -> (r: usize)
        ensures
            r == color_index_spec(*self, trk_chan),
            r < 16,
    {
        let (trk, chn) = decode_track_channel(trk_chan);
        match self {
            NoteColorIndexing::Channel => chn,
            NoteColorIndexing::Track => {
                assert(trk & 0xFusize == trk % 16) by (bit_vector);
                trk & 0xF
            },
            NoteColorIndexing::ChannelTrack => {
                let sum = trk + chn;
                assert(sum & 0xFusize == sum % 16) by (bit_vector);
                sum & 0xF
            },
        }
    }
}

/// Which neighbouring tracks the piano roll shows behind the current one.
#[allow(non_camel_case_types)]
#[derive(Clone, Copy, PartialEq, Eq, Structural, Debug)]
pub enum VS_PianoRoll_OnionState {
    NoOnion,
    ViewPrevious,
    ViewNext,
    ViewAll,
}

impl Default for VS_PianoRoll_OnionState {
    /// No neighbouring tracks are shown unless chosen otherwise.
    fn default() -> (r: Self)
        ensures
            r == VS_PianoRoll_OnionState::NoOnion,
    {
        VS_PianoRoll_OnionState::NoOnion
    }
}

/// The label the interface shows for an onion state.
pub open spec fn onion_state_label(s: VS_PianoRoll_OnionState) -> Seq<char> {
    match s {
        VS_PianoRoll_OnionState::NoOnion => "No onion"@,
        VS_PianoRoll_OnionState::ViewAll => "All tracks"@,
        VS_PianoRoll_OnionState::ViewNext => "Next track"@,
        VS_PianoRoll_OnionState::ViewPrevious => "Previous track"@,
    }
}

impl VS_PianoRoll_OnionState {
    /// The state's label (see [`onion_state_label`]).
    pub fn to_string(&self) -> (r: String)
        ensures
            r@ == onion_state_label(*self),
    {
        match self {
            VS_PianoRoll_OnionState::NoOnion => "No onion".to_owned(),
            VS_PianoRoll_OnionState::ViewAll => "All tracks".to_owned(),
            VS_PianoRoll_OnionState::ViewNext => "Next track".to_owned(),
            VS_PianoRoll_OnionState::ViewPrevious => "Previous track".to_owned(),
        }
    }
}

/// How the neighbouring tracks are colored.
#[allow(non_camel_case_types)]
#[derive(Clone, Copy, PartialEq, Eq, Structural, Debug)]
pub enum VS_PianoRoll_OnionColoring {
    GrayedOut,
    PartialColor,
    FullColor,
}

impl Default for VS_PianoRoll_OnionColoring {
    /// Neighbouring tracks are partly colored unless chosen otherwise.
    fn default() -> (r: Self)
        ensures
            r == VS_PianoRoll_OnionColoring::PartialColor,
    {
        VS_PianoRoll_OnionColoring::PartialColor
    }
}

/// What the data view under the piano roll shows.
#[allow(non_camel_case_types)]
#[derive(Clone, Copy, PartialEq, Eq, Structural, Debug)]
pub enum VS_PianoRoll_DataViewState {
    Hidden,
    NoteVelocities,
    PitchBend,
}

impl Default for VS_PianoRoll_DataViewState {
    /// The data view shows note velocities unless chosen otherwise.
    fn default() -> (r: Self)
        ensures
            r == VS_PianoRoll_DataViewState::NoteVelocities,
    {
        VS_PianoRoll_DataViewState::NoteVelocities
    }
}

/// The label the interface shows for a data view state.
pub open spec fn data_view_label(s: VS_PianoRoll_DataViewState) -> Seq<char> {
    match s {
        VS_PianoRoll_DataViewState::Hidden => "None"@,
        VS_PianoRoll_DataViewState::NoteVelocities => "Velocity"@,
        VS_PianoRoll_DataViewState::PitchBend => "Pitch bend"@,
    }
}

impl VS_PianoRoll_DataViewState {
    /// The state's label (see [`data_view_label`]).
    pub fn to_string(&self) -> (r: String)
        ensures
            r@ == data_view_label(*self),
    {
        match self {
            VS_PianoRoll_DataViewState::Hidden => "None".to_owned(),
            VS_PianoRoll_DataViewState::NoteVelocities => "Velocity".to_owned(),
            VS_PianoRoll_DataViewState::PitchBend => "Pitch bend".to_owned(),
        }
    }
}

} // verus!
