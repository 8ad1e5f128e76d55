use andromeda::actions::{EditorAction, EditorActions};
use andromeda::midi_types::{ChannelEvent, ChannelEventType, MIDITrack, Note};
use andromeda::track_mixer::TrackMixer;
use andromeda::track_ops::{
    apply_track_action, change_track, decompose_track, insert_track, insert_track_at, remove_track,
    remove_track_at, swap_track_contents, swap_tracks, swap_tracks_and_register, validate_tracks,
};

fn note(start: u32, channel: u8, key: u8) -> Note {
    Note { start, length: 10, channel, key, velocity: 100 }
}

fn track_with(keys: &[u8]) -> MIDITrack {
    MIDITrack::new(keys.iter().enumerate().map(|(i, k)| note(i as u32 * 10, 0, *k)).collect(), vec![])
}

fn first_keys(tracks: &[MIDITrack]) -> Vec<Option<u8>> {
    tracks.iter().map(|t| t.notes.first().map(|n| n.key)).collect()
}

#[test]
fn mixer_mutes_solos_and_unmutes() {
    let mut mixer = TrackMixer::new();
    let mut tracks = vec![track_with(&[1]), track_with(&[2]), track_with(&[3])];
    mixer.set_track_muted(&mut tracks, 1, true);
    assert_eq!(tracks.iter().map(|t| t.muted).collect::<Vec<_>>(), vec![false, true, false]);
    mixer.solo_track(&mut tracks, 2);
    assert_eq!(tracks.iter().map(|t| t.muted).collect::<Vec<_>>(), vec![true, true, false]);
    mixer.unmute_all_tracks(&mut tracks);
    assert_eq!(tracks.iter().map(|t| t.muted).collect::<Vec<_>>(), vec![false, false, false]);
    assert_eq!(first_keys(&tracks), vec![Some(1), Some(2), Some(3)]);
}

#[test]
fn validate_tracks_grows_and_trims_empty_tracks() {
    let mut tracks = vec![track_with(&[1])];
    validate_tracks(&mut tracks, 3);
    assert_eq!(tracks.len(), 4);
    assert_eq!(first_keys(&tracks), vec![Some(1), None, None, None]);
    validate_tracks(&mut tracks, 1);
    assert_eq!(tracks.len(), 2);
    let mut tracks = vec![track_with(&[1]), MIDITrack::new_empty(), track_with(&[3]), MIDITrack::new_empty()];
    validate_tracks(&mut tracks, 0);
    assert_eq!(first_keys(&tracks), vec![Some(1), None, Some(3)]);
}

#[test]
fn insert_and_remove_track_at() {
    let mut tracks = vec![track_with(&[1]), track_with(&[3])];
    insert_track_at(&mut tracks, 1, track_with(&[2]));
    assert_eq!(first_keys(&tracks), vec![Some(1), Some(2), Some(3)]);
    let removed = remove_track_at(&mut tracks, 0);
    assert_eq!(removed.notes[0].key, 1);
    assert_eq!(first_keys(&tracks), vec![Some(2), Some(3)]);
}

#[test]
fn decompose_track_splits_by_channel() {
    let notes = vec![note(0, 2, 60), note(10, 0, 61), note(20, 2, 62)];
    let evs = vec![ChannelEvent { tick: 0, channel: 5, event_type: ChannelEventType::ProgramChange(1) }];
    let mut tracks = vec![track_with(&[9]), MIDITrack::new(notes, evs), track_with(&[99])];
    let made = decompose_track(&mut tracks, 1);
    assert_eq!(made, 3);
    assert_eq!(tracks.len(), 5);
    assert_eq!(tracks[1].notes.iter().map(|n| n.key).collect::<Vec<_>>(), vec![61]);
    assert_eq!(tracks[2].notes.iter().map(|n| n.key).collect::<Vec<_>>(), vec![60, 62]);
    assert!(tracks[3].notes.is_empty());
    assert_eq!(tracks[3].channel_events.len(), 1);
    assert_eq!(first_keys(&tracks)[4], Some(99));

    let mut tracks = vec![MIDITrack::new_empty()];
    assert_eq!(decompose_track(&mut tracks, 0), 0);
    assert_eq!(tracks.len(), 1);
}

#[test]
fn swap_tracks_exchanges_and_extends() {
    let mut tracks = vec![track_with(&[1]), track_with(&[2])];
    swap_track_contents(&mut tracks, 0, 1);
    assert_eq!(first_keys(&tracks), vec![Some(2), Some(1)]);
    swap_track_contents(&mut tracks, 0, 3);
    assert_eq!(first_keys(&tracks), vec![None, Some(1), None, Some(2)]);
}

#[test]
fn change_track_creates_missing_tracks() {
    let mut tracks = vec![track_with(&[1])];
    let mut curr = 0u16;
    change_track(&mut tracks, &mut curr, 2);
    assert_eq!(curr, 2);
    assert_eq!(tracks.len(), 3);
}

#[test]
fn insert_track_records_action() {
    let mut tracks = vec![track_with(&[1]), track_with(&[2])];
    let mut actions = EditorActions::new(8);
    insert_track(&mut tracks, 5, &mut actions);
    assert_eq!(tracks.len(), 2);
    assert!(!actions.get_can_undo());
    insert_track(&mut tracks, 1, &mut actions);
    assert_eq!(first_keys(&tracks), vec![Some(1), None, Some(2)]);
    assert!(actions.get_can_undo());
}

#[test]
fn remove_track_then_undo_restores_it() {
    let mut tracks = vec![track_with(&[1]), track_with(&[2, 5]), track_with(&[3])];
    let mut actions = EditorActions::new(8);
    let mut curr = 0u16;
    remove_track(&mut tracks, 1, &mut curr, &mut actions);
    assert_eq!(first_keys(&tracks), vec![Some(1), Some(3)]);
    assert_eq!(curr, 0);
    let undo = actions.undo_action().unwrap();
    apply_track_action(&mut tracks, undo, &mut curr);
    assert_eq!(first_keys(&tracks), vec![Some(1), Some(2), Some(3)]);
    assert_eq!(tracks[1].notes.iter().map(|n| n.key).collect::<Vec<_>>(), vec![2, 5]);
    assert_eq!(curr, 0);
    let redo = actions.redo_action().unwrap();
    apply_track_action(&mut tracks, redo, &mut curr);
    assert_eq!(first_keys(&tracks), vec![Some(1), Some(3)]);
}

#[test]
fn remove_track_before_current_moves_current() {
    let mut tracks = vec![track_with(&[1]), track_with(&[2]), track_with(&[3])];
    let mut actions = EditorActions::new(8);
    let mut curr = 2u16;
    remove_track(&mut tracks, 0, &mut curr, &mut actions);
    assert_eq!(curr, 1);
    assert_eq!(first_keys(&tracks), vec![Some(2), Some(3)]);
}

#[test]
fn swap_action_follows_current_track() {
    let mut tracks = vec![track_with(&[1]), track_with(&[2])];
    let mut curr = 0u16;
    let mut action = EditorAction::SwapTracks(0, 1);
    apply_track_action(&mut tracks, &mut action, &mut curr);
    assert_eq!(first_keys(&tracks), vec![Some(2), Some(1)]);
    assert_eq!(curr, 1);
}

#[test]
fn swap_then_undo_swaps_back() {
    let mut tracks = vec![track_with(&[60]), track_with(&[61]), track_with(&[62])];
    let mut curr: u16 = 0;
    let mut action = EditorAction::SwapTracks(1, 2);
    apply_track_action(&mut tracks, &mut action, &mut curr);
    assert_eq!(first_keys(&tracks), vec![Some(60), Some(62), Some(61)]);
    apply_track_action(&mut tracks, &mut action, &mut curr);
    assert_eq!(first_keys(&tracks), vec![Some(60), Some(61), Some(62)]);
    assert_eq!(curr, 0);
}

#[test]
fn insert_track_then_undo_takes_it_out() {
    let mut tracks = vec![track_with(&[60]), track_with(&[61])];
    let mut actions = EditorActions::new(8);
    let mut curr: u16 = 0;
    insert_track(&mut tracks, 1, &mut actions);
    assert_eq!(first_keys(&tracks), vec![Some(60), None, Some(61)]);
    let undo = actions.undo_action().unwrap();
    apply_track_action(&mut tracks, undo, &mut curr);
    assert_eq!(first_keys(&tracks), vec![Some(60), Some(61)]);
    assert_eq!(curr, 0);
    assert!(matches!(undo, EditorAction::RemoveTrack(1, Some(q), false) if q.len() == 1));
}

#[test]
fn swap_tracks_records_and_follows_current_track() {
    let mut tracks = vec![track_with(&[1]), track_with(&[2]), track_with(&[3])];
    let mut actions = EditorActions::new(8);
    let mut curr: u16 = 0;
    swap_tracks(&mut tracks, 0, 2, &mut curr, &mut actions);
    assert_eq!(first_keys(&tracks), vec![Some(3), Some(2), Some(1)]);
    assert_eq!(curr, 2);
    assert!(matches!(actions.undo_action().unwrap(), EditorAction::SwapTracks(0, 2)));

    let mut quiet = EditorActions::new(8);
    swap_tracks_and_register(&mut tracks, 0, 1, false, &mut curr, &mut quiet);
    assert_eq!(first_keys(&tracks), vec![Some(2), Some(3), Some(1)]);
    assert_eq!(curr, 2);
    assert!(!quiet.get_can_undo());
}

#[test]
fn solo_with_more_tracks_than_track_numbers() {
    let mut tracks: Vec<MIDITrack> = (0..65537).map(|_| MIDITrack::new_empty()).collect();
    let mut mixer = TrackMixer::new();
    mixer.solo_track(&mut tracks, 0);
    assert!(!tracks[0].muted);
    assert!(tracks[1].muted);
    assert!(tracks[65536].muted);
    mixer.solo_track(&mut tracks, 65535);
    assert!(!tracks[65535].muted);
    assert!(tracks[0].muted);
    assert!(tracks[65536].muted);
}
