use vstd::prelude::*;
use crate::midi_types::{MIDITick, Note, ChannelEvent, ChannelEventType, MIDITrack};
use crate::timed_seq::is_sorted;
use crate::note_queries::bin_search_notes_exact;

verus! {

/// A message for the synthesizer.
#[derive(Clone, Copy, PartialEq, Eq, Structural, Debug)]
pub enum MidiEvent {
    NoteOn { channel: u8, key: u8, velocity: u8 },
    NoteOff { channel: u8, key: u8, velocity: u8 },
    Control { channel: u8, controller: u8, value: u8 },
    PitchBend { channel: u8, lsb: u8, msb: u8 },
}

/// The three bytes that carry an event: a status byte (the kind of message
/// in the high half, the channel in the low half) and two data bytes.
pub open spec fn event_bytes(e: MidiEvent) -> Seq<u8> {
    match e {
        MidiEvent::NoteOn { channel, key, velocity } => seq![0x90u8 | channel, key, velocity],
        MidiEvent::NoteOff { channel, key, velocity } => seq![0x80u8 | channel, key, velocity],
        MidiEvent::Control { channel, controller, value } => seq![0xB0u8 | channel, controller, value],
        MidiEvent::PitchBend { channel, lsb, msb } => seq![0xE0u8 | channel, lsb, msb],
    }
}

impl MidiEvent {
    /// The raw message sent to the synthesizer for this event.
    pub fn raw_bytes(&self) -> (r: [u8; 3])
        ensures
            r@ == event_bytes(*self),
    {
        let r = match *self {
            MidiEvent::NoteOn { channel, key, velocity } => [0x90u8 | channel, key, velocity],
            MidiEvent::NoteOff { channel, key, velocity } => [0x80u8 | channel, key, velocity],
            MidiEvent::Control { channel, controller, value } => [0xB0u8 | channel, controller, value],
            MidiEvent::PitchBend { channel, lsb, msb } => [0xE0u8 | channel, lsb, msb],
        };
        assert(r@ =~= event_bytes(*self));
        r
    }
}

/// An event due at a given tick.
#[derive(Clone, Copy, Debug)]
pub struct Scheduled {
    pub time: MIDITick,
    pub event: MidiEvent,
}

impl Scheduled {
    pub fn get_time(&self) -> (r: &MIDITick)
        ensures
            *r == self.time,
    {
        &self.time
    }
}

/// `m` is the position of an earliest item of `s`.
pub open spec fn is_earliest(s: Seq<Scheduled>, m: int) -> bool {
    &&& 0 <= m < s.len()
    &&& forall|i: int| 0 <= i < s.len() ==> s[m].time <= #[trigger] s[i].time
}

/// The last position of an earliest item among the first `k` items of `s`
/// (0 when there are none).
pub open spec fn last_earliest(s: Seq<Scheduled>, k: int) -> int
    decreases k,
{
    if k <= 1 {
        0
    } else {
        let m = last_earliest(s, k - 1);
        if s[k - 1].time <= s[m].time {
            k - 1
        } else {
            m
        }
    }
}

proof fn lemma_last_earliest(s: Seq<Scheduled>, k: int)
    requires
        1 <= k <= s.len(),
    ensures
        0 <= last_earliest(s, k) < k,
        forall|i: int| 0 <= i < k ==> s[last_earliest(s, k)].time <= #[trigger] s[i].time,
    decreases k,
{
    if k > 1 {
        lemma_last_earliest(s, k - 1);
    }
}

/// The pending events after inserting `x` into pending events `s` whose
/// earliest is at `m`, with the new position of the earliest.
pub open spec fn sched_insert(s: Seq<Scheduled>, m: int, x: Scheduled) -> (Seq<Scheduled>, int) {
    if s.len() == 0 || x.time <= s[m].time {
        (s.push(x), s.len() as int)
    } else {
        (s.push(x), m)
    }
}

/// Taking the earliest event (at `m`) out of `s`: the last item fills its
/// place. Returns the event, the rest and the position of their earliest.
pub open spec fn sched_pop(s: Seq<Scheduled>, m: int) -> (Scheduled, Seq<Scheduled>, int) {
    let t = s.update(m, s.last()).drop_last();
    (s[m], t, last_earliest(t, t.len() as int))
}

/// Events come out earliest first: whatever is still pending after taking
/// out the earliest event is due no earlier than it, and the rest keep
/// their position of an earliest event.
pub proof fn lemma_pop_earliest_first(s: Seq<Scheduled>, m: int)
    requires
        is_earliest(s, m),
    ensures
        ({
            let (e, t, m2) = sched_pop(s, m);
            &&& t.len() == s.len() - 1
            &&& forall|i: int| 0 <= i < t.len() ==> e.time <= #[trigger] t[i].time
            &&& t.len() > 0 ==> is_earliest(t, m2)
        }),
{
    let t = s.update(m, s.last()).drop_last();
    assert forall|i: int| 0 <= i < t.len() implies s[m].time <= #[trigger] t[i].time by {
        if i == m {
            assert(t[i] == s[s.len() - 1]);
        } else {
            assert(t[i] == s[i]);
        }
    }
    if t.len() > 0 {
        lemma_last_earliest(t, t.len() as int);
    }
}

/// Taking the earliest event out leaves exactly the other pending events:
/// as a multiset, what remains is what was pending less the event taken,
/// and nothing that remains is due earlier.
pub proof fn lemma_pop_leaves_the_rest(s: Seq<Scheduled>, m: int)
    requires
        is_earliest(s, m),
    ensures
        ({
            let (e, t, m2) = sched_pop(s, m);
            &&& e == s[m]
            &&& t.to_multiset() == s.to_multiset().remove(e)
            &&& forall|i: int| 0 <= i < t.len() ==> e.time <= #[trigger] t[i].time
        }),
{
    broadcast use vstd::seq_lib::group_to_multiset_ensures;
    lemma_pop_earliest_first(s, m);
    let u = s.update(m, s.last());
    let t = u.drop_last();
    assert(u =~= t.push(u.last()));
    assert(u.last() == s.last());
    let a = s.last();
    assert(u.to_multiset() =~= s.to_multiset().insert(a).remove(s[m]));
    assert(u.to_multiset() =~= t.to_multiset().insert(a));
    assert(t.to_multiset() =~= t.to_multiset().insert(a).remove(a));
    assert(s.to_multiset().insert(a).remove(s[m]).remove(a) =~= s.to_multiset().remove(s[m]));
    assert(t.to_multiset() =~= s.to_multiset().remove(s[m]));
}

/// Inserting an event adds exactly that event to what is pending, and the
/// earliest pending event is then the earlier of the former earliest and
/// the new one.
pub proof fn lemma_insert_adds_the_event(s: Seq<Scheduled>, m: int, x: Scheduled)
    requires
        s.len() == 0 || is_earliest(s, m),
    ensures
        ({
            let (t, m2) = sched_insert(s, m, x);
            &&& t.to_multiset() == s.to_multiset().insert(x)
            &&& is_earliest(t, m2)
            &&& t[m2].time == if s.len() == 0 || x.time <= s[m].time { x.time } else { s[m].time }
        }),
{
    broadcast use vstd::seq_lib::group_to_multiset_ensures;
    let t = s.push(x);
    assert(t.to_multiset() =~= s.to_multiset().insert(x));
}

/// Pending events, with quick access to the earliest one.
pub struct ScheduledSequence {
    sequence: Vec<Scheduled>,
    min_index: usize,
}

impl ScheduledSequence {
    /// The pending events, in the order they are kept.
    pub closed spec fn items(&self) -> Seq<Scheduled> {
        self.sequence@
    }

    /// Where the earliest pending event is kept.
    pub closed spec fn min_spec(&self) -> int {
        self.min_index as int
    }

    /// Without events the position is 0; otherwise it points at an earliest
    /// event.
    pub open spec fn wf(&self) -> bool {
        if self.items().len() == 0 {
            self.min_spec() == 0
        } else {
            is_earliest(self.items(), self.min_spec())
        }
    }

    pub fn new(scheduled_at_least: usize) -> (r: Self)
        ensures
            r.wf(),
            r.items() == Seq::<Scheduled>::empty(),
    {
        Self { sequence: Vec::with_capacity(scheduled_at_least), min_index: 0 }
    }

    /// Adds an event.
    pub fn insert(&mut self, scheduled_event: Scheduled)
        requires
            old(self).wf(),
        ensures
            final(self).wf(),
            (final(self).items(), final(self).min_spec()) == sched_insert(old(self).items(), old(self).min_spec(), scheduled_event),
            final(self).items().to_multiset() == old(self).items().to_multiset().insert(scheduled_event),
            final(self).items()[final(self).min_spec()].time == if old(self).items().len() == 0
                || scheduled_event.time <= old(self).items()[old(self).min_spec()].time {
                scheduled_event.time
            } else {
                old(self).items()[old(self).min_spec()].time
            },
    {
        proof {
            lemma_insert_adds_the_event(self.items(), self.min_spec(), scheduled_event);
        }
        self.sequence.push(scheduled_event);
        let idx = self.last();
        if *self.get(idx).unwrap().get_time() <= *self.peek().unwrap().get_time() {
            self.min_index = idx;
        }
    }

    fn get(&self, index: usize) -> (r: Option<&Scheduled>)
        ensures
            r == (if self.items().len() > 0 && index < self.items().len() {
                Some(&self.items()[index as int])
            } else {
                None
            }),
    {
        if !self.sequence.is_empty() && index <= self.last() {
            Some(&self.sequence[index])
        } else {
            None
        }
    }

    fn last(&self) -> (r: usize)
        ensures
            r == (if self.items().len() == 0 { 0 } else { self.items().len() - 1 }),
    {
        if self.sequence.is_empty() {
            0
        } else {
            self.sequence.len() - 1
        }
    }

    /// The earliest pending event; `None` when nothing is pending.
    pub fn peek(&self) -> (r: Option<&Scheduled>)
        ensures
            r == (if self.items().len() > 0 && self.min_spec() < self.items().len() {
                Some(&self.items()[self.min_spec()])
            } else {
                None
            }),
            self.wf() && self.items().len() > 0 ==> r is Some && is_earliest(self.items(), self.min_spec()),
    {
        self.get(self.min_index)
    }

    /// Takes the earliest pending event out.
    pub fn pop(&mut self) -> (r: Option<Scheduled>)
        requires
            old(self).wf(),
            old(self).items().len() > 0,
        ensures
            final(self).wf(),
            r == Some(sched_pop(old(self).items(), old(self).min_spec()).0),
            final(self).items() == sched_pop(old(self).items(), old(self).min_spec()).1,
            final(self).min_spec() == sched_pop(old(self).items(), old(self).min_spec()).2,
            is_earliest(old(self).items(), old(self).min_spec()),
            final(self).items().to_multiset() == old(self).items().to_multiset().remove(r->0),
            forall|i: int| 0 <= i < final(self).items().len() ==> r->0.time <= #[trigger] final(self).items()[i].time,
    {
        proof {
            lemma_pop_leaves_the_rest(self.items(), self.min_spec());
        }
        let earliest_scheduled = self.sequence.swap_remove(self.min_index);
        let ghost t = self.sequence@;
        let mut new_min_index: usize = 0;
        let n = self.sequence.len();
        let mut idx: usize = 0;
        while idx < n
            invariant
                n == t.len(),
                self.sequence@ == t,
                idx <= n,
                new_min_index == last_earliest(t, idx as int),
                idx > 0 ==> new_min_index < idx,
            decreases n - idx,
        {
            if *self.sequence[idx].get_time() <= *self.get(new_min_index).unwrap().get_time() {
                new_min_index = idx;
            }
            proof {
                if idx > 0 {
                    lemma_last_earliest(t, idx as int);
                }
            }
            idx += 1;
        }
        self.min_index = new_min_index;
        proof {
            if n > 0 {
                lemma_last_earliest(t, n as int);
            }
        }
        Some(earliest_scheduled)
    }
}

/// Taking out, earliest first, every pending event due at `pos`. Returns
/// the events taken, the rest and the position of their earliest.
pub open spec fn drain_due(s: Seq<Scheduled>, m: int, pos: MIDITick) -> (Seq<Scheduled>, Seq<Scheduled>, int)
    decreases s.len(),
{
    if s.len() > 0 && 0 <= m < s.len() && s[m].time <= pos {
        let p = sched_pop(s, m);
        let r = drain_due(p.1, p.2, pos);
        (seq![p.0] + r.0, r.1, r.2)
    } else {
        (Seq::empty(), s, m)
    }
}

/// Draining the due events takes out exactly the pending events due at
/// `pos`, earliest first: what is taken and what remains together are what
/// was pending, everything taken is due by `pos` and comes out in order of
/// time, everything left is due later, and the earliest of what is left is
/// known again.
pub proof fn lemma_drain_due_law(s: Seq<Scheduled>, m: int, pos: MIDITick)
    requires
        s.len() == 0 || is_earliest(s, m),
    ensures
        ({
            let (out, rest, m2) = drain_due(s, m, pos);
            &&& out.to_multiset().add(rest.to_multiset()) == s.to_multiset()
            &&& forall|i: int| 0 <= i < out.len() ==> (#[trigger] out[i]).time <= pos
            &&& forall|i: int, j: int| 0 <= i <= j < out.len() ==> (#[trigger] out[i]).time <= (#[trigger] out[j]).time
            &&& forall|i: int| 0 <= i < rest.len() ==> (#[trigger] rest[i]).time > pos
            &&& rest.len() > 0 ==> is_earliest(rest, m2)
        }),
    decreases s.len(),
{
    broadcast use vstd::seq_lib::group_to_multiset_ensures;
    broadcast use vstd::multiset::group_multiset_axioms;

    if s.len() > 0 && 0 <= m < s.len() && s[m].time <= pos {
        let p = sched_pop(s, m);
        lemma_pop_earliest_first(s, m);
        lemma_pop_leaves_the_rest(s, m);
        lemma_drain_due_law(p.1, p.2, pos);
        let r = drain_due(p.1, p.2, pos);
        let out = seq![p.0] + r.0;
        assert(drain_due(s, m, pos).0 == out);
        assert(forall|i: int| 0 <= i < r.0.len() ==> r.0.to_multiset().count(#[trigger] r.0[i]) > 0);
        assert forall|i: int| 0 <= i < r.0.len() implies p.0.time <= (#[trigger] r.0[i]).time by {
            assert(r.0.to_multiset().count(r.0[i]) > 0);
            assert(p.1.to_multiset().count(r.0[i]) > 0);
            assert(p.1.contains(r.0[i]));
        }
        assert forall|i: int, j: int| 0 <= i <= j < out.len() implies (#[trigger] out[i]).time <= (#[trigger] out[j]).time by {
            if i == 0 {
                if j > 0 {
                    assert(out[j] == r.0[j - 1]);
                }
            } else {
                assert(out[i] == r.0[i - 1]);
                assert(out[j] == r.0[j - 1]);
            }
        }
        assert forall|i: int| 0 <= i < out.len() implies (#[trigger] out[i]).time <= pos by {
            if i > 0 {
                assert(out[i] == r.0[i - 1]);
            }
        }
        assert(out.to_multiset() =~= r.0.to_multiset().insert(p.0)) by {
            assert(out =~= seq![p.0] + r.0);
            vstd::seq_lib::lemma_multiset_commutative(seq![p.0], r.0);
            assert(seq![p.0].to_multiset() =~= vstd::multiset::Multiset::empty().insert(p.0)) by {
                assert(seq![p.0] =~= Seq::<Scheduled>::empty().push(p.0));
                assert(Seq::<Scheduled>::empty().to_multiset() =~= vstd::multiset::Multiset::empty());
            }
        }
        assert(s.contains(s[m]));
        assert(s.to_multiset().count(p.0) > 0);
        assert(r.0.to_multiset().add(r.1.to_multiset()) =~= s.to_multiset().remove(p.0));
        assert(out.to_multiset().add(r.1.to_multiset()) =~= s.to_multiset().remove(p.0).insert(p.0));
        assert(out.to_multiset().add(r.1.to_multiset()) =~= s.to_multiset());
    } else {
        assert(s.to_multiset().add(Seq::<Scheduled>::empty().to_multiset()) =~= s.to_multiset()) by {
            assert(Seq::<Scheduled>::empty().to_multiset() =~= vstd::multiset::Multiset::empty());
        }
        assert(vstd::multiset::Multiset::<Scheduled>::empty().add(s.to_multiset()) =~= s.to_multiset());
        assert(Seq::<Scheduled>::empty().to_multiset() =~= vstd::multiset::Multiset::empty());
        assert forall|i: int| 0 <= i < s.len() implies (#[trigger] s[i]).time > pos by {
            assert(s[m].time <= s[i].time);
        }
    }
}

/// What a channel event sends: controller changes and pitch bends; other
/// kinds send nothing.
pub open spec fn channel_event_out(e: ChannelEvent) -> Seq<MidiEvent> {
    match e.event_type {
        ChannelEventType::Controller(controller, value) => seq![
            MidiEvent::Control { channel: e.channel, controller, value },
        ],
        ChannelEventType::PitchBend(lsb, msb) => seq![MidiEvent::PitchBend { channel: e.channel, lsb, msb }],
        _ => Seq::empty(),
    }
}

/// Going through the channel events from `cur` while they are due at `pos`.
/// Returns the next cursor and what is sent.
pub open spec fn channel_events_due(evs: Seq<ChannelEvent>, cur: int, pos: MIDITick) -> (int, Seq<MidiEvent>)
    decreases evs.len() - cur,
{
    if 0 <= cur < evs.len() && pos >= evs[cur].tick {
        let r = channel_events_due(evs, cur + 1, pos);
        (r.0, channel_event_out(evs[cur]) + r.1)
    } else {
        (cur, Seq::empty())
    }
}

/// Whether a channel event sends anything: controller changes and pitch
/// bends do.
pub open spec fn sends_message() -> spec_fn(ChannelEvent) -> bool {
    |e: ChannelEvent| e.event_type is Controller || e.event_type is PitchBend
}

/// The message a controller change or pitch bend sends.
pub open spec fn channel_message(e: ChannelEvent) -> MidiEvent {
    match e.event_type {
        ChannelEventType::PitchBend(l, m) => MidiEvent::PitchBend { lsb: l, msb: m, channel: e.channel },
        ChannelEventType::Controller(c, v) => MidiEvent::Control { controller: c, value: v, channel: e.channel },
        _ => MidiEvent::Control { controller: 0, value: 0, channel: e.channel },
    }
}

proof fn lemma_channel_events_fold(evs: Seq<ChannelEvent>, cur: int, pos: MIDITick)
    requires
        0 <= cur <= evs.len(),
    ensures
        ({
            let (next, out) = channel_events_due(evs, cur, pos);
            &&& cur <= next <= evs.len()
            &&& forall|j: int| cur <= j < next ==> (#[trigger] evs[j]).tick <= pos
            &&& next < evs.len() ==> evs[next].tick > pos
            &&& out == evs.subrange(cur, next).filter(sends_message()).map_values(|e: ChannelEvent| channel_message(e))
        }),
    decreases evs.len() - cur,
{
    if 0 <= cur < evs.len() && pos >= evs[cur].tick {
        lemma_channel_events_fold(evs, cur + 1, pos);
        let r = channel_events_due(evs, cur + 1, pos);
        let e = evs[cur];
        let rest = evs.subrange(cur + 1, r.0);
        assert(evs.subrange(cur, r.0) =~= seq![e] + rest);
        rest.lemma_filter_prepend(e, sends_message());
        let fr = rest.filter(sends_message());
        if e.event_type is Controller || e.event_type is PitchBend {
            assert(evs.subrange(cur, r.0).filter(sends_message()) == seq![e] + fr);
            assert(channel_event_out(e) =~= seq![channel_message(e)]);
            assert((seq![e] + fr).map_values(|x: ChannelEvent| channel_message(x)) =~= seq![channel_message(e)]
                + fr.map_values(|x: ChannelEvent| channel_message(x)));
        } else {
            assert(evs.subrange(cur, r.0).filter(sends_message()) =~= Seq::<ChannelEvent>::empty() + fr);
            assert(channel_event_out(e) =~= Seq::<MidiEvent>::empty());
            assert(Seq::<ChannelEvent>::empty() + fr =~= fr);
            assert(Seq::<MidiEvent>::empty() + r.1 =~= r.1);
        }
    } else {
        assert(evs.subrange(cur, cur) =~= Seq::<ChannelEvent>::empty());
        assert(Seq::<ChannelEvent>::empty().filter(sends_message()) =~= Seq::<ChannelEvent>::empty()) by {
            reveal_with_fuel(Seq::filter, 1);
        }
        assert(Seq::<ChannelEvent>::empty().map_values(|x: ChannelEvent| channel_message(x)) =~= Seq::<MidiEvent>::empty());
    }
}

/// Going through the due channel events sends, in order, the message of
/// each controller change and pitch bend among them, on the event's own
/// channel with its own data, and nothing for the other kinds; it stops at
/// the first event after `pos`.
pub proof fn lemma_channel_events_due_law(evs: Seq<ChannelEvent>, cur: int, pos: MIDITick)
    requires
        0 <= cur <= evs.len(),
    ensures
        ({
            let (next, out) = channel_events_due(evs, cur, pos);
            let sending = evs.subrange(cur, next).filter(
                |x: ChannelEvent| x.event_type is Controller || x.event_type is PitchBend,
            );
            &&& cur <= next <= evs.len()
            &&& forall|j: int| cur <= j < next ==> (#[trigger] evs[j]).tick <= pos
            &&& next < evs.len() ==> evs[next].tick > pos
            &&& out.len() == sending.len()
            &&& forall|i: int| 0 <= i < out.len() ==> match (#[trigger] sending[i]).event_type {
                ChannelEventType::Controller(c, v) => out[i] == MidiEvent::Control { value: v, controller: c, channel: sending[i].channel },
                ChannelEventType::PitchBend(l, m) => out[i] == MidiEvent::PitchBend { msb: m, lsb: l, channel: sending[i].channel },
                _ => false,
            }
        }),
{
    lemma_channel_events_fold(evs, cur, pos);
    let r = channel_events_due(evs, cur, pos);
    assert(sends_message() =~= (|x: ChannelEvent| x.event_type is Controller || x.event_type is PitchBend));
    let sending = evs.subrange(cur, r.0).filter(sends_message());
    broadcast use vstd::seq_lib::group_filter_ensures;
    assert forall|i: int| 0 <= i < r.1.len() implies match (#[trigger] sending[i]).event_type {
        ChannelEventType::Controller(c, v) => r.1[i] == MidiEvent::Control { value: v, controller: c, channel: sending[i].channel },
        ChannelEventType::PitchBend(l, m) => r.1[i] == MidiEvent::PitchBend { msb: m, lsb: l, channel: sending[i].channel },
        _ => false,
    } by {
        assert(sends_message()(sending[i]));
    }
}

/// The note-off that ends `n`.
pub open spec fn note_off_for(n: Note) -> Scheduled {
    Scheduled {
        time: n.end_spec() as MIDITick,
        event: MidiEvent::NoteOff { channel: n.channel, key: n.key, velocity: n.velocity },
    }
}

/// Going through the notes from `cur` while they start by `pos`: each note
/// loud enough (velocity 20 or more) sends a note-on and has its note-off
/// scheduled. Returns the next cursor, what is sent, and the pending events
/// with the position of their earliest.
pub open spec fn notes_due(notes: Seq<Note>, cur: int, pos: MIDITick, s: Seq<Scheduled>, m: int) -> (int, Seq<MidiEvent>, Seq<Scheduled>, int)
    decreases notes.len() - cur,
{
    if 0 <= cur < notes.len() && pos >= notes[cur].start {
        let n = notes[cur];
        if n.velocity >= 20 {
            let ins = sched_insert(s, m, note_off_for(n));
            let r = notes_due(notes, cur + 1, pos, ins.0, ins.1);
            (r.0, seq![MidiEvent::NoteOn { channel: n.channel, key: n.key, velocity: n.velocity }] + r.1, r.2, r.3)
        } else {
            notes_due(notes, cur + 1, pos, s, m)
        }
    } else {
        (cur, Seq::empty(), s, m)
    }
}

/// Whether a note is loud enough to be played (velocity 20 or more).
pub open spec fn loud() -> spec_fn(Note) -> bool {
    |n: Note| n.velocity >= 20
}

/// The note-on that starts `n`.
pub open spec fn note_on_for(n: Note) -> MidiEvent {
    MidiEvent::NoteOn { channel: n.channel, key: n.key, velocity: n.velocity }
}

proof fn lemma_notes_due_fold(notes: Seq<Note>, cur: int, pos: MIDITick, s: Seq<Scheduled>, m: int)
    requires
        0 <= cur <= notes.len(),
        s.len() == 0 || is_earliest(s, m),
    ensures
        ({
            let (next, sent, s2, m2) = notes_due(notes, cur, pos, s, m);
            let played = notes.subrange(cur, next).filter(loud());
            &&& cur <= next <= notes.len()
            &&& forall|j: int| cur <= j < next ==> (#[trigger] notes[j]).start <= pos
            &&& next < notes.len() ==> notes[next].start > pos
            &&& sent == played.map_values(|n: Note| note_on_for(n))
            &&& s2.to_multiset() == s.to_multiset().add(played.map_values(|n: Note| note_off_for(n)).to_multiset())
            &&& s2.len() > 0 ==> is_earliest(s2, m2)
        }),
    decreases notes.len() - cur,
{
    broadcast use vstd::seq_lib::group_to_multiset_ensures;
    broadcast use vstd::multiset::group_multiset_axioms;

    if 0 <= cur < notes.len() && pos >= notes[cur].start {
        let n = notes[cur];
        let (s1, m1) = if n.velocity >= 20 { sched_insert(s, m, note_off_for(n)) } else { (s, m) };
        if n.velocity >= 20 {
            lemma_insert_adds_the_event(s, m, note_off_for(n));
        }
        lemma_notes_due_fold(notes, cur + 1, pos, s1, m1);
        let r = notes_due(notes, cur + 1, pos, s1, m1);
        let next = r.0;
        let due = notes.subrange(cur, next);
        let rest = notes.subrange(cur + 1, next);
        assert(due =~= seq![n] + rest);
        rest.lemma_filter_prepend(n, loud());
        let played = due.filter(loud());
        let played_rest = rest.filter(loud());
        let offs_rest = played_rest.map_values(|x: Note| note_off_for(x));
        if n.velocity >= 20 {
            assert(played == seq![n] + played_rest);
            assert(played.map_values(|x: Note| note_on_for(x)) =~= seq![note_on_for(n)] + played_rest.map_values(|x: Note| note_on_for(x)));
            let offs = played.map_values(|x: Note| note_off_for(x));
            assert(offs =~= seq![note_off_for(n)] + offs_rest);
            vstd::seq_lib::lemma_multiset_commutative(seq![note_off_for(n)], offs_rest);
            assert(seq![note_off_for(n)] =~= Seq::<Scheduled>::empty().push(note_off_for(n)));
            assert(Seq::<Scheduled>::empty().to_multiset() =~= vstd::multiset::Multiset::empty());
            assert(offs.to_multiset() =~= offs_rest.to_multiset().insert(note_off_for(n)));
            assert(r.2.to_multiset() =~= s.to_multiset().add(offs.to_multiset()));
        } else {
            assert(played =~= Seq::<Note>::empty() + played_rest);
            assert(played =~= played_rest);
        }
    } else {
        let played = notes.subrange(cur, cur).filter(loud());
        assert(notes.subrange(cur, cur) =~= Seq::<Note>::empty());
        assert(Seq::<Note>::empty().filter(loud()) =~= Seq::<Note>::empty()) by {
            reveal_with_fuel(Seq::filter, 1);
        }
        assert(played.map_values(|x: Note| note_on_for(x)) =~= Seq::<MidiEvent>::empty());
        assert(played.map_values(|x: Note| note_off_for(x)) =~= Seq::<Scheduled>::empty());
        assert(Seq::<Scheduled>::empty().to_multiset() =~= vstd::multiset::Multiset::empty());
        assert(s.to_multiset().add(vstd::multiset::Multiset::empty()) =~= s.to_multiset());
    }
}

/// Walking the due notes plays exactly the loud notes among them: it stops
/// at the first note that starts after `pos`, sends the note-ons of the
/// loud notes passed, in order, and adds exactly their note-offs to what is
/// pending (each due at its note's end, on the channel and key that the
/// note-on used, so every note played is released where it was started),
/// whose earliest is then known again.
pub proof fn lemma_notes_due_law(notes: Seq<Note>, cur: int, pos: MIDITick, s: Seq<Scheduled>, m: int)
    requires
        0 <= cur <= notes.len(),
        s.len() == 0 || is_earliest(s, m),
    ensures
        ({
            let (next, sent, s2, m2) = notes_due(notes, cur, pos, s, m);
            let played = notes.subrange(cur, next).filter(|n: Note| n.velocity >= 20);
            &&& cur <= next <= notes.len()
            &&& forall|j: int| cur <= j < next ==> (#[trigger] notes[j]).start <= pos
            &&& next < notes.len() ==> notes[next].start > pos
            &&& sent == played.map_values(
                |x: Note| MidiEvent::NoteOn { key: x.key, channel: x.channel, velocity: x.velocity },
            )
            &&& s2.to_multiset() == s.to_multiset().add(
                played.map_values(
                    |x: Note|
                        Scheduled {
                            time: (x.start + x.length) as MIDITick,
                            event: MidiEvent::NoteOff { key: x.key, channel: x.channel, velocity: x.velocity },
                        },
                ).to_multiset(),
            )
            &&& s2.len() > 0 ==> is_earliest(s2, m2)
        }),
{
    lemma_notes_due_fold(notes, cur, pos, s, m);
    let r = notes_due(notes, cur, pos, s, m);
    assert(loud() =~= (|n: Note| n.velocity >= 20));
    let played = notes.subrange(cur, r.0).filter(loud());
    assert(played.map_values(|n: Note| note_on_for(n)) =~= played.map_values(
        |x: Note| MidiEvent::NoteOn { key: x.key, channel: x.channel, velocity: x.velocity },
    ));
    assert(played.map_values(|n: Note| note_off_for(n)) =~= played.map_values(
        |x: Note|
            Scheduled {
                time: (x.start + x.length) as MIDITick,
                event: MidiEvent::NoteOff { key: x.key, channel: x.channel, velocity: x.velocity },
            },
    ));
}

/// `x` is the release of a note of the tracks: a note-off due at the note's
/// end, on its channel and key, with its velocity.
pub open spec fn releases_a_note(tracks: Seq<MIDITrack>, x: Scheduled) -> bool {
    exists|k: int, j: int|
        0 <= k < tracks.len() && 0 <= j < tracks[k].notes@.len() && x == (Scheduled {
            time: ((#[trigger] tracks[k].notes@[j]).start + tracks[k].notes@[j].length) as MIDITick,
            event: MidiEvent::NoteOff {
                key: tracks[k].notes@[j].key,
                channel: tracks[k].notes@[j].channel,
                velocity: tracks[k].notes@[j].velocity,
            },
        })
}

/// Every pending event releases a note of the tracks.
pub open spec fn all_release_notes(tracks: Seq<MIDITrack>, s: Seq<Scheduled>) -> bool {
    forall|i: int| 0 <= i < s.len() ==> #[trigger] releases_a_note(tracks, s[i])
}

proof fn lemma_in_multiset_sum(a: Seq<Scheduled>, b: Seq<Scheduled>, c: Seq<Scheduled>, i: int)
    requires
        c.to_multiset() == a.to_multiset().add(b.to_multiset()),
        0 <= i < c.len(),
    ensures
        a.contains(c[i]) || b.contains(c[i]),
{
    broadcast use vstd::seq_lib::group_to_multiset_ensures;
    broadcast use vstd::multiset::group_multiset_axioms;

    assert(c.contains(c[i]));
    assert(c.to_multiset().count(c[i]) > 0);
}

proof fn lemma_tracks_due_releases(tracks: Seq<MIDITrack>, st: PlaybackState, pos: MIDITick, k: int)
    requires
        0 <= k <= tracks.len(),
        st.pending.len() == 0 || is_earliest(st.pending, st.pending_min),
        all_release_notes(tracks, st.pending),
    ensures
        ({
            let r = tracks_due(tracks, st, pos, k).0;
            &&& r.pending.len() == 0 || is_earliest(r.pending, r.pending_min)
            &&& all_release_notes(tracks, r.pending)
        }),
    decreases k,
{
    if k > 0 {
        lemma_tracks_due_releases(tracks, st, pos, k - 1);
        let p = tracks_due(tracks, st, pos, k - 1).0;
        let t = tracks[k - 1];
        if !t.muted {
            let notes = t.notes@;
            let cur = p.note_cursors[k - 1] as int;
            if cur <= notes.len() {
                lemma_notes_due_law(notes, cur, pos, p.pending, p.pending_min);
                let n = notes_due(notes, cur, pos, p.pending, p.pending_min);
                let played = notes.subrange(cur, n.0).filter(|x: Note| x.velocity >= 20);
                let offs = played.map_values(
                    |x: Note|
                        Scheduled {
                            time: (x.start + x.length) as MIDITick,
                            event: MidiEvent::NoteOff { key: x.key, channel: x.channel, velocity: x.velocity },
                        },
                );
                assert forall|i: int| 0 <= i < n.2.len() implies #[trigger] releases_a_note(tracks, n.2[i]) by {
                    lemma_in_multiset_sum(p.pending, offs, n.2, i);
                    if p.pending.contains(n.2[i]) {
                        let w = choose|w: int| 0 <= w < p.pending.len() && p.pending[w] == n.2[i];
                        assert(releases_a_note(tracks, p.pending[w]));
                    } else {
                        let w = choose|w: int| 0 <= w < offs.len() && offs[w] == n.2[i];
                        let x = played[w];
                        assert(played.contains(x));
                        notes.subrange(cur, n.0).lemma_filter_contains_rev(|x: Note| x.velocity >= 20, x);
                        let v = choose|v: int| 0 <= v < n.0 - cur && notes.subrange(cur, n.0)[v] == x;
                        assert(notes[cur + v] == x);
                        assert(tracks[k - 1].notes@[cur + v] == x);
                    }
                }
            }
        }
    }
}

/// What a playback step leaves pending and sends stays tied to the notes
/// of the tracks: if every pending event released a note of the tracks (as
/// when nothing is pending at the start), then after the step every pending
/// event still does, and every note-off the step sends is the release of a
/// note of the tracks, on that note's channel and key and with its
/// velocity.
pub proof fn lemma_step_releases_notes(tracks: Seq<MIDITrack>, st: PlaybackState, pos: MIDITick)
    requires
        st.pending.len() == 0 || is_earliest(st.pending, st.pending_min),
        all_release_notes(tracks, st.pending),
    ensures
        ({
            let (next, sent) = playback_step_spec(tracks, st, pos);
            let d = drain_due(st.pending, st.pending_min, pos);
            &&& next.pending.len() == 0 || is_earliest(next.pending, next.pending_min)
            &&& all_release_notes(tracks, next.pending)
            &&& forall|i: int| 0 <= i < d.0.len() ==> #[trigger] releases_a_note(tracks, d.0[i])
            &&& sent.take(d.0.len() as int) == d.0.map_values(|x: Scheduled| x.event)
        }),
{
    lemma_drain_due_law(st.pending, st.pending_min, pos);
    let d = drain_due(st.pending, st.pending_min, pos);
    assert forall|i: int| 0 <= i < d.1.len() implies #[trigger] releases_a_note(tracks, d.1[i]) by {
        broadcast use vstd::seq_lib::group_to_multiset_ensures;
        broadcast use vstd::multiset::group_multiset_axioms;

        assert(d.1.contains(d.1[i]));
        assert(st.pending.to_multiset().count(d.1[i]) > 0);
        assert(st.pending.contains(d.1[i]));
        let w = choose|w: int| 0 <= w < st.pending.len() && st.pending[w] == d.1[i];
        assert(releases_a_note(tracks, st.pending[w]));
    }
    assert forall|i: int| 0 <= i < d.0.len() implies #[trigger] releases_a_note(tracks, d.0[i]) by {
        broadcast use vstd::seq_lib::group_to_multiset_ensures;
        broadcast use vstd::multiset::group_multiset_axioms;

        assert(d.0.contains(d.0[i]));
        assert(st.pending.to_multiset().count(d.0[i]) > 0);
        assert(st.pending.contains(d.0[i]));
        let w = choose|w: int| 0 <= w < st.pending.len() && st.pending[w] == d.0[i];
        assert(releases_a_note(tracks, st.pending[w]));
    }
    let after_drain = PlaybackState { note_cursors: st.note_cursors, ch_cursors: st.ch_cursors, pending: d.1, pending_min: d.2 };
    lemma_tracks_due_releases(tracks, after_drain, pos, tracks.len() as int);
    let t = tracks_due(tracks, after_drain, pos, tracks.len() as int);
    assert((drained_events(d.0) + t.1).take(d.0.len() as int) =~= d.0.map_values(|x: Scheduled| x.event));
}

/// Every note that the walk from `cur` reaches at `pos` ends at a tick.
pub open spec fn due_ends_fit(notes: Seq<Note>, cur: int, pos: MIDITick) -> bool {
    forall|j: int|
        cur <= j < notes.len() && (forall|i: int| cur <= i <= j ==> #[trigger] notes[i].start <= pos)
            ==> #[trigger] notes[j].end_spec() <= MIDITick::MAX
}

/// The state that playback carries from one step to the next.
pub struct PlaybackState {
    pub note_cursors: Seq<usize>,
    pub ch_cursors: Seq<usize>,
    pub pending: Seq<Scheduled>,
    pub pending_min: int,
}

/// One track's share of a step: its due channel events, then its due notes;
/// a muted track is skipped.
pub open spec fn track_due(t: MIDITrack, k: int, st: PlaybackState, pos: MIDITick) -> (PlaybackState, Seq<MidiEvent>) {
    if t.muted {
        (st, Seq::empty())
    } else {
        let c = channel_events_due(t.channel_events@, st.ch_cursors[k] as int, pos);
        let n = notes_due(t.notes@, st.note_cursors[k] as int, pos, st.pending, st.pending_min);
        (
            PlaybackState {
                note_cursors: st.note_cursors.update(k, n.0 as usize),
                ch_cursors: st.ch_cursors.update(k, c.0 as usize),
                pending: n.2,
                pending_min: n.3,
            },
            c.1 + n.1,
        )
    }
}

/// The first `k` tracks' share of a step, in track order.
pub open spec fn tracks_due(tracks: Seq<MIDITrack>, st: PlaybackState, pos: MIDITick, k: int) -> (PlaybackState, Seq<MidiEvent>)
    decreases k,
{
    if k <= 0 {
        (st, Seq::empty())
    } else {
        let p = tracks_due(tracks, st, pos, k - 1);
        let t = track_due(tracks[k - 1], k - 1, p.0, pos);
        (t.0, p.1 + t.1)
    }
}

/// The note-offs that a drain sends.
pub open spec fn drained_events(s: Seq<Scheduled>) -> Seq<MidiEvent> {
    s.map_values(|x: Scheduled| x.event)
}

/// One step of playback at `pos`: first the due note-offs, earliest first,
/// then each track's due events. Returns the next state and what is sent.
pub open spec fn playback_step_spec(tracks: Seq<MIDITrack>, st: PlaybackState, pos: MIDITick) -> (PlaybackState, Seq<MidiEvent>) {
    let d = drain_due(st.pending, st.pending_min, pos);
    let after_drain = PlaybackState { note_cursors: st.note_cursors, ch_cursors: st.ch_cursors, pending: d.1, pending_min: d.2 };
    let t = tracks_due(tracks, after_drain, pos, tracks.len() as int);
    (t.0, drained_events(d.0) + t.1)
}

/// Whether the synthesizer thread is woken up after sending `e`: after
/// everything but a note-off.
pub open spec fn wakes_synth(e: MidiEvent) -> bool {
    !(e is NoteOff)
}

/// Events paired with whether the synthesizer thread is woken up after each.
pub open spec fn with_wake(s: Seq<MidiEvent>) -> Seq<(MidiEvent, bool)> {
    s.map_values(|e: MidiEvent| (e, wakes_synth(e)))
}

proof fn lemma_with_wake_append(a: Seq<MidiEvent>, b: Seq<MidiEvent>)
    ensures
        with_wake(a + b) == with_wake(a) + with_wake(b),
{
    assert(with_wake(a + b) =~= with_wake(a) + with_wake(b));
}

fn push_event(out: &mut Vec<(MidiEvent, bool)>, e: MidiEvent)
    ensures
        final(out)@ == old(out)@ + with_wake(seq![e]),
{
    let wake = match e {
        MidiEvent::NoteOff { .. } => false,
        _ => true,
    };
    out.push((e, wake));
    assert(final(out)@ =~= old(out)@ + with_wake(seq![e]));
}

/// Sends every pending event due at `pos`, earliest first.
fn send_due_offs(scheduled_offs: &mut ScheduledSequence, pos: MIDITick, out: &mut Vec<(MidiEvent, bool)>)
    requires
        old(scheduled_offs).wf(),
    ensures
        final(scheduled_offs).wf(),
        final(scheduled_offs).items() == drain_due(old(scheduled_offs).items(), old(scheduled_offs).min_spec(), pos).1,
        final(scheduled_offs).min_spec() == drain_due(old(scheduled_offs).items(), old(scheduled_offs).min_spec(), pos).2,
        final(out)@ == old(out)@ + with_wake(drained_events(drain_due(old(scheduled_offs).items(), old(scheduled_offs).min_spec(), pos).0)),
{
    let ghost d0 = drain_due(scheduled_offs.items(), scheduled_offs.min_spec(), pos);
    let ghost out0 = out@;
    let ghost mut taken: Seq<Scheduled> = Seq::empty();
    loop
        invariant
            scheduled_offs.wf(),
            drain_due(scheduled_offs.items(), scheduled_offs.min_spec(), pos).1 == d0.1,
            drain_due(scheduled_offs.items(), scheduled_offs.min_spec(), pos).2 == d0.2,
            taken + drain_due(scheduled_offs.items(), scheduled_offs.min_spec(), pos).0 == d0.0,
            out@ == out0 + with_wake(drained_events(taken)),
        ensures
            scheduled_offs.wf(),
            scheduled_offs.items() == d0.1,
            scheduled_offs.min_spec() == d0.2,
            out@ == out0 + with_wake(drained_events(d0.0)),
        decreases scheduled_offs.items().len(),
    {
        let due = match scheduled_offs.peek() {
            Some(first) => *first.get_time() <= pos,
            None => false,
        };
        if !due {
            proof {
                assert(taken =~= d0.0);
            }
            break;
        }
        let ghost before = scheduled_offs.items();
        let ghost bm = scheduled_offs.min_spec();
        let first = scheduled_offs.pop().unwrap();
        proof {
            let r = drain_due(sched_pop(before, bm).1, sched_pop(before, bm).2, pos);
            assert(drain_due(before, bm, pos).0 == seq![first] + r.0);
            assert(taken.push(first) + r.0 =~= taken + drain_due(before, bm, pos).0);
            assert(drained_events(taken.push(first)) =~= drained_events(taken) + seq![first.event]);
            lemma_with_wake_append(drained_events(taken), seq![first.event]);
            taken = taken.push(first);
        }
        push_event(out, first.event);
    }
}

/// Sends the due channel events of a track, from `cursor` on.
fn send_due_channel_events(evs: &Vec<ChannelEvent>, cursor: &mut usize, pos: MIDITick, out: &mut Vec<(MidiEvent, bool)>)
    ensures
        *final(cursor) == channel_events_due(evs@, *old(cursor) as int, pos).0,
        final(out)@ == old(out)@ + with_wake(channel_events_due(evs@, *old(cursor) as int, pos).1),
{
    let ghost c0 = channel_events_due(evs@, *cursor as int, pos);
    let ghost out0 = out@;
    let ghost mut sent: Seq<MidiEvent> = Seq::empty();
    while *cursor < evs.len()
        invariant
            channel_events_due(evs@, *cursor as int, pos).0 == c0.0,
            sent + channel_events_due(evs@, *cursor as int, pos).1 == c0.1,
            out@ == out0 + with_wake(sent),
        ensures
            *cursor == c0.0,
            out@ == out0 + with_wake(c0.1),
        decreases evs@.len() - *cursor,
    {
        let event = evs[*cursor];
        if pos >= event.tick {
            let ghost cur = *cursor as int;
            match event.event_type {
                ChannelEventType::Controller(controller, value) => {
                    push_event(out, MidiEvent::Control { channel: event.channel, controller, value });
                },
                ChannelEventType::PitchBend(lsb, msb) => {
                    push_event(out, MidiEvent::PitchBend { channel: event.channel, lsb, msb });
                },
                _ => {},
            }
            proof {
                let e = channel_event_out(event);
                lemma_with_wake_append(sent, e);
                assert(with_wake(Seq::<MidiEvent>::empty()) =~= Seq::<(MidiEvent, bool)>::empty());
                assert(out@ =~= out0 + with_wake(sent + e));
                assert(sent + e + channel_events_due(evs@, cur + 1, pos).1 =~= sent + channel_events_due(evs@, cur, pos).1);
                sent = sent + e;
            }
            *cursor += 1;
        } else {
            proof {
                assert(sent =~= c0.1);
            }
            break;
        }
    }
    proof {
        assert(sent =~= c0.1);
    }
}

/// Sends the due notes of a track, from `cursor` on, and schedules their
/// note-offs.
fn send_due_notes(
    notes: &Vec<Note>,
    cursor: &mut usize,
    pos: MIDITick,
    scheduled_offs: &mut ScheduledSequence,
    out: &mut Vec<(MidiEvent, bool)>,
)
    requires
        old(scheduled_offs).wf(),
        due_ends_fit(notes@, *old(cursor) as int, pos),
    ensures
        ({
            let n = notes_due(notes@, *old(cursor) as int, pos, old(scheduled_offs).items(), old(scheduled_offs).min_spec());
            &&& *final(cursor) == n.0
            &&& final(out)@ == old(out)@ + with_wake(n.1)
            &&& final(scheduled_offs).items() == n.2
            &&& final(scheduled_offs).min_spec() == n.3
            &&& final(scheduled_offs).wf()
        }),
{
    let ghost c_start = *cursor as int;
    let ghost n0 = notes_due(notes@, *cursor as int, pos, scheduled_offs.items(), scheduled_offs.min_spec());
    let ghost out0 = out@;
    let ghost mut sent: Seq<MidiEvent> = Seq::empty();
    while *cursor < notes.len()
        invariant
            scheduled_offs.wf(),
            c_start <= *cursor,
            forall|i: int| c_start <= i < *cursor ==> #[trigger] notes@[i].start <= pos,
            due_ends_fit(notes@, c_start, pos),
            notes_due(notes@, *cursor as int, pos, scheduled_offs.items(), scheduled_offs.min_spec()).0 == n0.0,
            sent + notes_due(notes@, *cursor as int, pos, scheduled_offs.items(), scheduled_offs.min_spec()).1 == n0.1,
            notes_due(notes@, *cursor as int, pos, scheduled_offs.items(), scheduled_offs.min_spec()).2 == n0.2,
            notes_due(notes@, *cursor as int, pos, scheduled_offs.items(), scheduled_offs.min_spec()).3 == n0.3,
            out@ == out0 + with_wake(sent),
        ensures
            scheduled_offs.wf(),
            *cursor == n0.0,
            out@ == out0 + with_wake(n0.1),
            scheduled_offs.items() == n0.2,
            scheduled_offs.min_spec() == n0.3,
        decreases notes@.len() - *cursor,
    {
        let note = notes[*cursor];
        if pos >= note.start {
            let ghost cur = *cursor as int;
            let ghost s = scheduled_offs.items();
            let ghost m = scheduled_offs.min_spec();
            if note.velocity >= 20 {
                proof {
                    assert(notes@[cur].start <= pos);
                    assert(notes@[cur].end_spec() <= MIDITick::MAX);
                }
                push_event(out, MidiEvent::NoteOn { channel: note.channel, key: note.key, velocity: note.velocity });
                let end = note.end();
                scheduled_offs.insert(Scheduled {
                    time: end,
                    event: MidiEvent::NoteOff { channel: note.channel, key: note.key, velocity: note.velocity },
                });
                proof {
                    let e = seq![MidiEvent::NoteOn { channel: note.channel, key: note.key, velocity: note.velocity }];
                    lemma_with_wake_append(sent, e);
                    let ins = sched_insert(s, m, note_off_for(note));
                    assert(sent + e + notes_due(notes@, cur + 1, pos, ins.0, ins.1).1 =~= sent + notes_due(notes@, cur, pos, s, m).1);
                    sent = sent + e;
                }
            }
            *cursor += 1;
        } else {
            proof {
                assert(sent =~= n0.1);
            }
            break;
        }
    }
    proof {
        assert(sent =~= n0.1);
    }
}

/// Every unmuted track has a cursor of each kind, and the notes its walk
/// reaches end at a tick.
pub open spec fn playback_step_ok(tracks: Seq<MIDITrack>, st: PlaybackState, pos: MIDITick) -> bool {
    &&& st.note_cursors.len() >= tracks.len()
    &&& st.ch_cursors.len() >= tracks.len()
    &&& forall|k: int| 0 <= k < tracks.len() && !tracks[k].muted ==> due_ends_fit(
        #[trigger] tracks[k].notes@,
        st.note_cursors[k] as int,
        pos,
    )
}

proof fn lemma_tracks_due_frame(tracks: Seq<MIDITrack>, st: PlaybackState, pos: MIDITick, k: int)
    requires
        0 <= k <= tracks.len(),
        st.note_cursors.len() >= tracks.len(),
        st.ch_cursors.len() >= tracks.len(),
    ensures
        tracks_due(tracks, st, pos, k).0.note_cursors.len() == st.note_cursors.len(),
        tracks_due(tracks, st, pos, k).0.ch_cursors.len() == st.ch_cursors.len(),
        forall|j: int| k <= j < st.note_cursors.len() ==> #[trigger] tracks_due(tracks, st, pos, k).0.note_cursors[j] == st.note_cursors[j],
        forall|j: int| k <= j < st.ch_cursors.len() ==> #[trigger] tracks_due(tracks, st, pos, k).0.ch_cursors[j] == st.ch_cursors[j],
    decreases k,
{
    if k > 0 {
        lemma_tracks_due_frame(tracks, st, pos, k - 1);
    }
}

/// One step of playback at `pos`: sends the note-offs that are due, then
/// each unmuted track's due channel events and notes, scheduling the
/// note-offs of the notes it starts. Returns what to send, each event with
/// whether to wake the synthesizer thread after it.
pub fn playback_step(
    tracks: &Vec<MIDITrack>,
    note_cursors: &mut Vec<usize>,
    ch_cursors: &mut Vec<usize>,
    scheduled_offs: &mut ScheduledSequence,
    pos: MIDITick,
) -> (r: Vec<(MidiEvent, bool)>)
    requires
        old(scheduled_offs).wf(),
        playback_step_ok(
            tracks@,
            PlaybackState {
                note_cursors: old(note_cursors)@,
                ch_cursors: old(ch_cursors)@,
                pending: old(scheduled_offs).items(),
                pending_min: old(scheduled_offs).min_spec(),
            },
            pos,
        ),
    ensures
        final(scheduled_offs).wf(),
        ({
            let st = PlaybackState {
                note_cursors: old(note_cursors)@,
                ch_cursors: old(ch_cursors)@,
                pending: old(scheduled_offs).items(),
                pending_min: old(scheduled_offs).min_spec(),
            };
            let res = playback_step_spec(tracks@, st, pos);
            &&& final(note_cursors)@ == res.0.note_cursors
            &&& final(ch_cursors)@ == res.0.ch_cursors
            &&& final(scheduled_offs).items() == res.0.pending
            &&& final(scheduled_offs).min_spec() == res.0.pending_min
            &&& r@ == with_wake(res.1)
        }),
{
    let ghost st0 = PlaybackState {
        note_cursors: note_cursors@,
        ch_cursors: ch_cursors@,
        pending: scheduled_offs.items(),
        pending_min: scheduled_offs.min_spec(),
    };
    let mut out: Vec<(MidiEvent, bool)> = Vec::new();
    send_due_offs(scheduled_offs, pos, &mut out);
    let ghost d = drain_due(st0.pending, st0.pending_min, pos);
    let ghost after_drain = PlaybackState { note_cursors: st0.note_cursors, ch_cursors: st0.ch_cursors, pending: d.1, pending_min: d.2 };
    assert(out@ =~= with_wake(drained_events(d.0)));
    let n = tracks.len();
    for trk in 0..n
        invariant
            n == tracks@.len(),
            scheduled_offs.wf(),
            playback_step_ok(tracks@, st0, pos),
            st0.note_cursors == after_drain.note_cursors,
            st0.ch_cursors == after_drain.ch_cursors,
            ({
                let t = tracks_due(tracks@, after_drain, pos, trk as int);
                &&& note_cursors@ == t.0.note_cursors
                &&& ch_cursors@ == t.0.ch_cursors
                &&& scheduled_offs.items() == t.0.pending
                &&& scheduled_offs.min_spec() == t.0.pending_min
                &&& out@ == with_wake(drained_events(d.0) + t.1)
            }),
    {
        proof {
            lemma_tracks_due_frame(tracks@, after_drain, pos, trk as int);
        }
        let track = &tracks[trk];
        let ghost p = tracks_due(tracks@, after_drain, pos, trk as int);
        if !track.muted {
            let mut ch_cursor = ch_cursors[trk];
            send_due_channel_events(&track.channel_events, &mut ch_cursor, pos, &mut out);
            ch_cursors.set(trk, ch_cursor);
            let mut note_cursor = note_cursors[trk];
            proof {
                assert(note_cursor == st0.note_cursors[trk as int]);
                assert(due_ends_fit(tracks@[trk as int].notes@, st0.note_cursors[trk as int] as int, pos));
            }
            send_due_notes(&track.notes, &mut note_cursor, pos, scheduled_offs, &mut out);
            note_cursors.set(trk, note_cursor);
            proof {
                let t = track_due(tracks@[trk as int], trk as int, p.0, pos);
                lemma_with_wake_append(drained_events(d.0) + p.1, t.1);
                lemma_with_wake_append(
                    drained_events(d.0) + p.1,
                    channel_events_due(track.channel_events@, p.0.ch_cursors[trk as int] as int, pos).1,
                );
                lemma_with_wake_append(drained_events(d.0), p.1);
                assert(drained_events(d.0) + (p.1 + t.1) =~= drained_events(d.0) + p.1 + t.1);
                assert(t.1 =~= channel_events_due(track.channel_events@, p.0.ch_cursors[trk as int] as int, pos).1
                    + notes_due(track.notes@, p.0.note_cursors[trk as int] as int, pos, p.0.pending, p.0.pending_min).1);
                assert(with_wake(drained_events(d.0) + p.1 + t.1) =~= out@);
            }
        } else {
            proof {
                assert(p.1 + Seq::<MidiEvent>::empty() =~= p.1);
            }
        }
    }
    out
}

/// The cursors that playback starts with at `pos`: each track's notes are
/// searched for `pos`, and the channel events start from the first.
pub fn initial_cursors(tracks: &Vec<MIDITrack>, pos: MIDITick) -> (r: (Vec<usize>, Vec<usize>))
    ensures
        r.0@.len() == tracks@.len(),
        r.1@.len() == tracks@.len(),
        forall|k: int| 0 <= k < tracks@.len() ==> #[trigger] r.1@[k] == 0,
        forall|k: int| 0 <= k < tracks@.len() ==> {
            let notes = #[trigger] tracks@[k].notes@;
            let c = r.0@[k];
            &&& notes.len() == 0 ==> c == 0
            &&& notes.len() > 0 ==> c < notes.len()
            &&& notes.len() > 0 && pos <= notes[0].start ==> c == 0
            &&& notes.len() > 0 && pos > notes[0].start && pos >= notes[notes.len() - 1].start ==> c == notes.len() - 1
            &&& is_sorted(notes) && notes.len() > 0 && pos > notes[0].start && pos < notes[notes.len() - 1].start ==> {
                &&& forall|i: int| 0 <= i < c ==> #[trigger] notes[i].start < pos
                &&& (c == notes.len() - 1 || notes[c as int].start >= pos)
            }
        },
{
    let mut cursors: Vec<usize> = Vec::new();
    let mut ch_cursors: Vec<usize> = Vec::new();
    let n = tracks.len();
    for trk in 0..n
        invariant
            n == tracks@.len(),
            cursors@.len() == trk,
            ch_cursors@.len() == trk,
            forall|k: int| 0 <= k < trk ==> #[trigger] ch_cursors@[k] == 0,
            forall|k: int| 0 <= k < trk ==> {
                let notes = #[trigger] tracks@[k].notes@;
                let c = cursors@[k];
                &&& notes.len() == 0 ==> c == 0
                &&& notes.len() > 0 ==> c < notes.len()
                &&& notes.len() > 0 && pos <= notes[0].start ==> c == 0
                &&& notes.len() > 0 && pos > notes[0].start && pos >= notes[notes.len() - 1].start ==> c == notes.len() - 1
                &&& is_sorted(notes) && notes.len() > 0 && pos > notes[0].start && pos < notes[notes.len() - 1].start ==> {
                    &&& forall|i: int| 0 <= i < c ==> #[trigger] notes[i].start < pos
                    &&& (c == notes.len() - 1 || notes[c as int].start >= pos)
                }
            },
    {
        let c = bin_search_notes_exact(&tracks[trk].notes, pos);
        cursors.push(c);
        ch_cursors.push(0);
    }
    (cursors, ch_cursors)
}

/// The size of the event pool that is asked for, kept between 100 and
/// 1000000 events.
pub fn event_pool_size(new_size: usize) -> (r: usize)
    ensures
        r == (if new_size > 1000000 { 1000000 } else if new_size < 100 { 100 } else { new_size }),
{
    let mut size = new_size;
    if size > 1000000 {
        size = 1000000;
    }
    if size < 100 {
        size = 100;
    }
    size
}

} // verus!
