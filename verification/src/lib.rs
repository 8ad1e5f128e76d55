//! Core editing logic of the Andromeda MIDI editor: note and meta-event
//! sequences, the undo/redo history, clipboard and selection state, the
//! editing tools of the piano roll, the track view and the data view, the
//! edit functions, the changes plugin scripts make, playback scheduling, bar
//! layout and the project file header.

pub mod midi_types;
pub mod timed_seq;
pub mod note_sequence_funcs;
pub mod meta_sequence_funcs;
pub mod note_queries;
pub mod note_moves;
pub mod actions;
pub mod note_action_spec;
pub mod note_editing;
pub mod note_edit_flags;
pub mod note_laws;
pub mod shared_editing;
pub mod edit_functions;
pub mod playback;
pub mod note_editing_ops;
pub mod track_mixer;
pub mod track_ops;
pub mod bar_cacher;
pub mod meta_editing;
pub mod project_file;
pub mod plugin_source;
pub mod playhead;
pub mod note_tools;
pub mod track_view_editing;
pub mod view_settings;
pub mod lua_note_editing;
pub mod data_editing;
