use andromeda::midi_types::{ChannelEvent, ChannelEventType, MIDITrack, Note};
use andromeda::playback::{
    event_pool_size, initial_cursors, playback_step, MidiEvent, Scheduled, ScheduledSequence,
};

fn note(start: u32, length: u32, key: u8, velocity: u8) -> Note {
    Note { start, length, channel: 0, key, velocity }
}

fn off(time: u32, key: u8) -> Scheduled {
    Scheduled { time, event: MidiEvent::NoteOff { channel: 0, key, velocity: 0 } }
}

#[test]
fn raw_bytes_carry_status_and_channel() {
    let on = MidiEvent::NoteOn { channel: 3, key: 60, velocity: 100 };
    assert_eq!(on.raw_bytes(), [0x93, 60, 100]);
    let off = MidiEvent::NoteOff { channel: 15, key: 61, velocity: 0 };
    assert_eq!(off.raw_bytes(), [0x8F, 61, 0]);
    let cc = MidiEvent::Control { channel: 1, controller: 7, value: 127 };
    assert_eq!(cc.raw_bytes(), [0xB1, 7, 127]);
    let pb = MidiEvent::PitchBend { channel: 0, lsb: 0, msb: 64 };
    assert_eq!(pb.raw_bytes(), [0xE0, 0, 64]);
}

#[test]
fn scheduled_sequence_pops_earliest_first() {
    let mut s = ScheduledSequence::new(4);
    assert!(s.peek().is_none());
    s.insert(off(50, 1));
    s.insert(off(10, 2));
    s.insert(off(30, 3));
    s.insert(off(10, 4));
    assert_eq!(*s.peek().unwrap().get_time(), 10);
    let mut times = Vec::new();
    while s.peek().is_some() {
        times.push(*s.pop().unwrap().get_time());
    }
    assert_eq!(times, vec![10, 10, 30, 50]);
    assert!(s.peek().is_none());
}

#[test]
fn scheduled_sequence_ties_go_to_latest_inserted() {
    let mut s = ScheduledSequence::new(2);
    s.insert(off(10, 1));
    s.insert(off(10, 2));
    match s.pop().unwrap().event {
        MidiEvent::NoteOff { key, .. } => assert_eq!(key, 2),
        _ => panic!("expected a note-off"),
    }
}

#[test]
fn event_pool_size_is_clamped() {
    assert_eq!(event_pool_size(5), 100);
    assert_eq!(event_pool_size(100), 100);
    assert_eq!(event_pool_size(5000), 5000);
    assert_eq!(event_pool_size(2_000_000), 1_000_000);
}

#[test]
fn initial_cursors_search_each_track() {
    let tracks = vec![
        MIDITrack::new(vec![note(0, 10, 60, 100), note(20, 10, 62, 100), note(40, 10, 64, 100)], vec![]),
        MIDITrack::new(vec![], vec![]),
        MIDITrack::new(vec![note(100, 10, 60, 100)], vec![]),
    ];
    let (cursors, ch) = initial_cursors(&tracks, 20);
    assert_eq!(cursors, vec![1, 0, 0]);
    assert_eq!(ch, vec![0, 0, 0]);
    let (cursors, _) = initial_cursors(&tracks, 0);
    assert_eq!(cursors, vec![0, 0, 0]);
    let (cursors, _) = initial_cursors(&tracks, 500);
    assert_eq!(cursors, vec![2, 0, 0]);
}

#[test]
fn playback_step_sends_due_events() {
    let tracks = vec![
        MIDITrack::new(
            vec![note(0, 10, 60, 100), note(0, 5, 64, 10), note(20, 10, 67, 90)],
            vec![
                ChannelEvent { tick: 0, channel: 2, event_type: ChannelEventType::Controller(7, 100) },
                ChannelEvent { tick: 0, channel: 2, event_type: ChannelEventType::ProgramChange(5) },
                ChannelEvent { tick: 15, channel: 2, event_type: ChannelEventType::PitchBend(1, 2) },
            ],
        ),
    ];
    let mut note_cursors = vec![0usize];
    let mut ch_cursors = vec![0usize];
    let mut pending = ScheduledSequence::new(8);

    let out = playback_step(&tracks, &mut note_cursors, &mut ch_cursors, &mut pending, 0);
    assert_eq!(
        out,
        vec![
            (MidiEvent::Control { channel: 2, controller: 7, value: 100 }, true),
            (MidiEvent::NoteOn { channel: 0, key: 60, velocity: 100 }, true),
        ]
    );
    assert_eq!(note_cursors, vec![2]);
    assert_eq!(ch_cursors, vec![2]);
    assert_eq!(*pending.peek().unwrap().get_time(), 10);

    let out = playback_step(&tracks, &mut note_cursors, &mut ch_cursors, &mut pending, 5);
    assert!(out.is_empty());

    let out = playback_step(&tracks, &mut note_cursors, &mut ch_cursors, &mut pending, 15);
    assert_eq!(
        out,
        vec![
            (MidiEvent::NoteOff { channel: 0, key: 60, velocity: 100 }, false),
            (MidiEvent::PitchBend { channel: 2, lsb: 1, msb: 2 }, true),
        ]
    );
    assert!(pending.peek().is_none());

    let out = playback_step(&tracks, &mut note_cursors, &mut ch_cursors, &mut pending, 20);
    assert_eq!(out, vec![(MidiEvent::NoteOn { channel: 0, key: 67, velocity: 90 }, true)]);
    assert_eq!(note_cursors, vec![3]);
    assert_eq!(*pending.peek().unwrap().get_time(), 30);
}

#[test]
fn playback_step_skips_muted_tracks() {
    let mut muted = MIDITrack::new(vec![note(0, 10, 60, 100)], vec![]);
    muted.muted = true;
    let tracks = vec![muted, MIDITrack::new(vec![note(0, 10, 72, 100)], vec![])];
    let mut note_cursors = vec![0usize, 0];
    let mut ch_cursors = vec![0usize, 0];
    let mut pending = ScheduledSequence::new(2);
    let out = playback_step(&tracks, &mut note_cursors, &mut ch_cursors, &mut pending, 0);
    assert_eq!(out, vec![(MidiEvent::NoteOn { channel: 0, key: 72, velocity: 100 }, true)]);
    assert_eq!(note_cursors, vec![0, 1]);
}

#[test]
fn playback_step_drains_note_offs_earliest_first() {
    let tracks = vec![MIDITrack::new(
        vec![note(0, 10, 60, 100), note(0, 5, 62, 100), note(0, 30, 64, 100)],
        vec![],
    )];
    let mut note_cursors = vec![0usize];
    let mut ch_cursors = vec![0usize];
    let mut pending = ScheduledSequence::new(8);
    let out = playback_step(&tracks, &mut note_cursors, &mut ch_cursors, &mut pending, 0);
    assert_eq!(out.len(), 3);
    let out = playback_step(&tracks, &mut note_cursors, &mut ch_cursors, &mut pending, 12);
    assert_eq!(
        out,
        vec![
            (MidiEvent::NoteOff { channel: 0, key: 62, velocity: 100 }, false),
            (MidiEvent::NoteOff { channel: 0, key: 60, velocity: 100 }, false),
        ]
    );
    assert_eq!(*pending.peek().unwrap().get_time(), 30);
}
