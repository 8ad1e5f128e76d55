# andromeda

The editing core of the Andromeda MIDI editor, written in Verus: every
function of the library carries a contract that Verus proves.

- `src/` is the library. Notes are kept per track in order of their start;
  `timed_seq` and `note_sequence_funcs` hold the sorted-sequence operations
  (merge, extract, sort) that everything else builds on. `actions` is the
  undo/redo history, `note_editing`, `note_tools`, `track_view_editing`,
  `data_editing` and `meta_editing` are the editors' state machines, and
  `note_laws` states what undoing an edit gives back.
- `tests/` runs the library on concrete values.
- `app/` is a small command-line program around the library: playback
  threads, files on disk, and the computations done in floating point.
