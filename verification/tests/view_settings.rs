use andromeda::plugin_source::{module_allowed, plugin_type_from_name, PluginInfo, PluginType};
use andromeda::view_settings::{
    decode_track_channel, NoteColorIndexing, RenderType, VS_PianoRoll_DataViewState, VS_PianoRoll_OnionColoring, VS_PianoRoll_OnionState,
};

#[test]
fn view_defaults() {
    assert_eq!(NoteColorIndexing::default(), NoteColorIndexing::Channel);
    assert_eq!(VS_PianoRoll_OnionState::default(), VS_PianoRoll_OnionState::NoOnion);
    assert_eq!(VS_PianoRoll_OnionColoring::default(), VS_PianoRoll_OnionColoring::PartialColor);
    assert_eq!(VS_PianoRoll_DataViewState::default(), VS_PianoRoll_DataViewState::NoteVelocities);
    assert_ne!(RenderType::PianoRoll, RenderType::TrackView);
}

#[test]
fn onion_state_labels() {
    assert_eq!(VS_PianoRoll_OnionState::NoOnion.to_string(), "No onion");
    assert_eq!(VS_PianoRoll_OnionState::ViewAll.to_string(), "All tracks");
    assert_eq!(VS_PianoRoll_OnionState::ViewNext.to_string(), "Next track");
    assert_eq!(VS_PianoRoll_OnionState::ViewPrevious.to_string(), "Previous track");
}

#[test]
fn data_view_labels() {
    assert_eq!(VS_PianoRoll_DataViewState::Hidden.to_string(), "None");
    assert_eq!(VS_PianoRoll_DataViewState::NoteVelocities.to_string(), "Velocity");
    assert_eq!(VS_PianoRoll_DataViewState::PitchBend.to_string(), "Pitch bend");
}

#[test]
fn plugin_descriptions() {
    let info = PluginInfo { author: Some("me".to_string()), description: None };
    assert_eq!(info.author.as_deref(), Some("me"));
    assert!(info.description.is_none());
    assert_ne!(PluginType::Manipluate, PluginType::Generate);
}

#[test]
fn plugin_type_names() {
    assert_eq!(plugin_type_from_name("generate"), PluginType::Generate);
    assert_eq!(plugin_type_from_name("manipulate"), PluginType::Manipluate);
    assert_eq!(plugin_type_from_name("something"), PluginType::Manipluate);
}

#[test]
fn plugin_modules_allowed() {
    assert!(!module_allowed("socket"));
    assert!(!module_allowed("os"));
    assert!(!module_allowed("package"));
    assert!(module_allowed("string"));
    assert!(module_allowed("math"));
}

#[test]
fn note_color_indices() {
    assert_eq!(decode_track_channel(0x123), (0x12, 0x3));
    assert_eq!(NoteColorIndexing::Channel.get_index(0x123), 3);
    assert_eq!(NoteColorIndexing::Track.get_index(0x123), 2);
    assert_eq!(NoteColorIndexing::ChannelTrack.get_index(0x1F5), 4);
}
