use vstd::prelude::*;

verus! {

/// A position on the timeline, in MIDI ticks.
pub type MIDITick = u32;

/// A difference between two positions on the timeline.
pub type SignedMIDITick = i32;

pub const MIDI_KEY_MIN: u8 = 0;
pub const MIDI_KEY_MAX: u8 = 127;

/// Something placed on the timeline; sequences of such items are kept in
/// ascending order of their time.
pub trait Timed {
    spec fn time(&self) -> int;

    fn get_time(&self) -> (t: MIDITick)
        ensures
            t as int == self.time(),
    ;
}

/// A single note.
#[derive(Clone, Copy, PartialEq, Eq, Structural, Debug)]
pub struct Note {
    pub start: MIDITick,
    pub length: MIDITick,
    pub channel: u8,
    pub key: u8,
    pub velocity: u8,
}

impl Note {
    pub open spec fn end_spec(self) -> int {
        self.start + self.length
    }

    pub fn start(&self) -> (r: MIDITick)
        ensures
            r == self.start,
    {
        self.start
    }

    pub fn length(&self) -> (r: MIDITick)
        ensures
            r == self.length,
    {
        self.length
    }

    pub fn key(&self) -> (r: u8)
        ensures
            r == self.key,
    {
        self.key
    }

    pub fn channel(&self) -> (r: u8)
        ensures
            r == self.channel,
    {
        self.channel
    }

    pub fn velocity(&self) -> (r: u8)
        ensures
            r == self.velocity,
    {
        self.velocity
    }

    /// The tick at which the note stops sounding.
    pub fn end(&self) -> (r: MIDITick)
        requires
            self.end_spec() <= u32::MAX,
        ensures
            r == self.end_spec(),
    {
        self.start + self.length
    }
}

impl Timed for Note {
    open spec fn time(&self) -> int {
        self.start as int
    }

    fn get_time(&self) -> (t: MIDITick) {
        self.start
    }
}

/// The kinds of meta events that the editor knows about.
#[derive(Clone, Copy, PartialEq, Eq, Structural, Debug)]
pub enum MetaEventType {
    SequenceNumber,
    Text,
    CopyrightNotice,
    TrackName,
    InstrumentName,
    Lyric,
    Marker,
    CuePoint,
    ChannelPrefix,
    EndOfTrack,
    Tempo,
    SmpteOffset,
    TimeSignature,
    KeySignature,
    SequencerSpecific,
}

/// A global meta event (tempo, time signature, key signature, ...).
#[derive(Clone, Debug)]
pub struct MetaEvent {
    pub tick: MIDITick,
    pub event_type: MetaEventType,
    pub data: Vec<u8>,
}

impl Timed for MetaEvent {
    open spec fn time(&self) -> int {
        self.tick as int
    }

    fn get_time(&self) -> (t: MIDITick) {
        self.tick
    }
}

/// The kinds of channel events.
#[derive(Clone, Copy, PartialEq, Eq, Structural, Debug)]
pub enum ChannelEventType {
    Controller(u8, u8),
    PitchBend(u8, u8),
    ProgramChange(u8),
    ChannelPressure(u8),
}

/// A channel event (controller change, pitch bend, ...).
#[derive(Clone, Copy, PartialEq, Eq, Structural, Debug)]
pub struct ChannelEvent {
    pub tick: MIDITick,
    pub channel: u8,
    pub event_type: ChannelEventType,
}

impl Timed for ChannelEvent {
    open spec fn time(&self) -> int {
        self.tick as int
    }

    fn get_time(&self) -> (t: MIDITick) {
        self.tick
    }
}

/// One track of a project: its notes, its channel events and whether it is muted.
#[derive(Clone, Debug)]
pub struct MIDITrack {
    pub notes: Vec<Note>,
    pub channel_events: Vec<ChannelEvent>,
    pub muted: bool,
}

impl MIDITrack {
    pub fn new(notes: Vec<Note>, channel_events: Vec<ChannelEvent>) -> (r: Self)
        ensures
            r.notes@ == notes@,
            r.channel_events@ == channel_events@,
            !r.muted,
    {
        MIDITrack { notes, channel_events, muted: false }
    }

    pub fn new_empty() -> (r: Self)
        ensures
            r.notes@.len() == 0,
            r.channel_events@.len() == 0,
            !r.muted,
    {
        MIDITrack { notes: Vec::new(), channel_events: Vec::new(), muted: false }
    }
}

} // verus!
