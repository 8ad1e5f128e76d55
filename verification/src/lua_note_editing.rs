//! What a plugin script does to the notes of a track, gathered while the
//! script runs over them: for each changed note the change of its position,
//! length, channel and velocity, and the notes it adds. Applying the
//! gathered changes puts moved notes back in order, merges the new notes in
//! and records everything as one action.
use vstd::prelude::*;
use std::collections::HashMap;
use vstd::std_specs::iter::IteratorSpec;
use crate::midi_types::{Note, SignedMIDITick};
use crate::actions::{EditorAction, EditorActions, ActionView, action_view, actions_view};
use crate::note_editing::{NoteEditing, tracks_view};
use crate::note_sequence_funcs::{
    extract,
    extract_spec,
    sort_by_time,
    sort_spec,
    merge_notes,
    merge_notes_and_return_ids,
    lemma_extract_from_multiset,
    lemma_extract_nothing,
    lemma_sort_spec,
};
use crate::note_action_spec::ints_as_usizes;
use crate::timed_seq::{merge_spec, merge_positions, usizes_as_ints, lemma_merge_positions, lemma_merge_sorted, is_sorted};
use crate::shared_editing::{strictly_increasing_usize, insert_id_sorted, lemma_prefix_step};
use crate::note_tools::signed_tick;

verus! {

broadcast use vstd::std_specs::hash::group_hash_axioms;

/// `ks` lists the keys of `m` in ascending order.
pub open spec fn sorted_keys_of<V>(ks: Seq<usize>, m: Map<usize, V>) -> bool {
    strictly_increasing_usize(ks) && forall|k: usize| #[trigger] ks.contains(k) <==> m.contains_key(k)
}

/// The values of `m` at the keys `ks`, in that order.
pub open spec fn values_at<V>(ks: Seq<usize>, m: Map<usize, V>) -> Seq<V> {
    ks.map_values(|k: usize| m[k])
}

/// The change of a note's start, both starts read as signed ticks.
pub open spec fn start_delta(before: Note, after: Note) -> int {
    signed_tick(after.start) - signed_tick(before.start)
}

/// The change of a note's length, both lengths read as signed ticks.
pub open spec fn length_delta(before: Note, after: Note) -> int {
    signed_tick(after.length) - signed_tick(before.length)
}

/// The change of a byte-sized value, both values read as signed bytes.
pub open spec fn byte_delta(before: u8, after: u8) -> int {
    (after as i8) as int - (before as i8) as int
}

/// The changes of a note can be recorded: none of them leaves its type.
pub open spec fn deltas_fit(before: Note, after: Note) -> bool {
    &&& i32::MIN <= start_delta(before, after) <= i32::MAX
    &&& i32::MIN <= length_delta(before, after) <= i32::MAX
    &&& i8::MIN <= byte_delta(before.channel, after.channel) <= i8::MAX
    &&& i8::MIN <= byte_delta(before.velocity, after.velocity) <= i8::MAX
}

/// A track's notes once the moved notes `kp` are taken out, put in order by
/// start and merged back (nothing happens without moved notes).
pub open spec fn moved_back(t: Seq<Note>, kp: Seq<usize>) -> Seq<Note> {
    if kp.len() > 0 {
        let parts = extract_spec(t, kp);
        merge_spec(parts.1, sort_spec(parts.0))
    } else {
        t
    }
}

/// A track's notes with `add`, put in order by start, merged in.
pub open spec fn with_added(t: Seq<Note>, add: Seq<Note>) -> Seq<Note> {
    if add.len() > 0 {
        merge_spec(t, sort_spec(add))
    } else {
        t
    }
}

/// The actions that applying the gathered changes records, in this order:
/// channel, velocity and length changes, the moves (the selection follows
/// the notes) and the placement of the added notes at `placed`; each only
/// when there is something of its kind.
pub open spec fn gathered_actions(
    chan: Map<usize, i8>,
    vel: Map<usize, i8>,
    len: Map<usize, SignedMIDITick>,
    pos: Map<usize, (SignedMIDITick, i16)>,
    kc: Seq<usize>,
    kv: Seq<usize>,
    kl: Seq<usize>,
    kp: Seq<usize>,
    placed: Option<Seq<usize>>,
    track: u16,
) -> Seq<ActionView> {
    let a1: Seq<ActionView> = if kc.len() > 0 { seq![ActionView::ChannelChange(kc, values_at(kc, chan), track)] } else { Seq::empty() };
    let a2: Seq<ActionView> = if kv.len() > 0 { seq![ActionView::VelocityChange(kv, values_at(kv, vel), track)] } else { Seq::empty() };
    let a3: Seq<ActionView> = if kl.len() > 0 { seq![ActionView::LengthChange(kl, values_at(kl, len), track)] } else { Seq::empty() };
    let a4: Seq<ActionView> = if kp.len() > 0 { seq![ActionView::NotesMove(kp, values_at(kp, pos), track, true)] } else { Seq::empty() };
    let a5: Seq<ActionView> = match placed {
        Some(ids) => seq![ActionView::PlaceNotes(ids, None, track)],
        None => Seq::empty(),
    };
    a1 + a2 + a3 + a4 + a5
}

/// Applying the gathered changes leaves a track in order by start: when
/// the notes that were not moved are in order, the track that results from
/// putting the moved notes back and merging the added notes in is in order.
pub proof fn lemma_applied_changes_keep_order(t: Seq<Note>, kp: Seq<usize>, add: Seq<Note>)
    requires
        is_sorted(extract_spec(t, kp).1),
    ensures
        is_sorted(with_added(moved_back(t, kp), add)),
{
    let parts = extract_spec(t, kp);
    if kp.len() > 0 {
        lemma_sort_spec(parts.0);
        lemma_merge_sorted(parts.1, sort_spec(parts.0));
    } else {
        lemma_extract_nothing(t, kp);
    }
    let t1 = moved_back(t, kp);
    if add.len() > 0 {
        lemma_sort_spec(add);
        lemma_merge_sorted(t1, sort_spec(add));
    }
}

/// The keys of `m` in ascending order, with the value at each.
fn listed<V: Copy>(m: &HashMap<usize, V>) -> (r: (Vec<usize>, Vec<V>))
    ensures
        sorted_keys_of(r.0@, m@),
        r.1@ == values_at(r.0@, m@),
{
    let mut keys: Vec<usize> = Vec::new();
    for (id, v) in it: m.iter()
        invariant
            it.seq() == m.iter().remaining(),
            keys@.len() == it.index(),
            forall|i: int| 0 <= i < it.index() ==> keys@[i] == *it.seq()[i].0,
    {
        keys.push(*id);
    }
    proof {
        let s = m.iter().remaining();
        assert forall|k: usize| #[trigger] m@.contains_key(k) <==> keys@.contains(k) by {
            if m@.contains_key(k) {
                assert(s.contains((&k, &m@[k])));
                let i = choose|i: int| 0 <= i < s.len() && s[i] == (&k, &m@[k]);
                assert(keys@[i] == k);
            }
            if keys@.contains(k) {
                let i = choose|i: int| 0 <= i < keys@.len() && keys@[i] == k;
                assert(m@.contains_key(*s[i].0));
            }
        }
    }
    let mut ids: Vec<usize> = Vec::new();
    let n = keys.len();
    for i in 0..n
        invariant
            n == keys@.len(),
            strictly_increasing_usize(ids@),
            forall|k: usize| #[trigger] ids@.contains(k) <==> keys@.subrange(0, i as int).contains(k),
    {
        insert_id_sorted(&mut ids, keys[i]);
        proof {
            lemma_prefix_step(keys@, i as int);
        }
    }
    assert(keys@.subrange(0, n as int) =~= keys@);
    let mut vals: Vec<V> = Vec::new();
    let count = ids.len();
    for i in 0..count
        invariant
            count == ids@.len(),
            sorted_keys_of(ids@, m@),
            vals@ == values_at(ids@, m@).subrange(0, i as int),
    {
        let k = ids[i];
        assert(ids@.contains(k));
        let v = *m.get(&k).unwrap();
        vals.push(v);
        assert(vals@ =~= values_at(ids@, m@).subrange(0, i + 1));
    }
    assert(vals@ =~= values_at(ids@, m@));
    (ids, vals)
}

/// The changes a plugin script made to the notes of a track, by note id,
/// and the notes it adds.
pub struct LuaNoteEditing {
    pub delta_note_pos: HashMap<usize, (SignedMIDITick, i16)>,
    pub delta_note_lengths: HashMap<usize, SignedMIDITick>,
    pub delta_note_channels: HashMap<usize, i8>,
    pub delta_note_velocities: HashMap<usize, i8>,
    pub notes_to_add: Vec<Note>,
}

impl LuaNoteEditing {
    /// Nothing gathered yet.
    pub fn new() -> (r: Self)
        ensures
            r.delta_note_pos@ == Map::<usize, (SignedMIDITick, i16)>::empty(),
            r.delta_note_lengths@ == Map::<usize, SignedMIDITick>::empty(),
            r.delta_note_channels@ == Map::<usize, i8>::empty(),
            r.delta_note_velocities@ == Map::<usize, i8>::empty(),
            r.notes_to_add@.len() == 0,
    {
        LuaNoteEditing {
            delta_note_pos: HashMap::new(),
            delta_note_lengths: HashMap::new(),
            delta_note_channels: HashMap::new(),
            delta_note_velocities: HashMap::new(),
            notes_to_add: Vec::new(),
        }
    }

    /// Records what the script did to note `id`, given the note before and
    /// after: each kind of change that is not zero replaces what was recorded
    /// for the note before (the position's change is the start's and the
    /// key's together).
    pub fn change_note_and_update_deltas(&mut self, before: Note, after: Note, id: usize)
        requires
            deltas_fit(before, after),
        ensures
            ({
                let ds = start_delta(before, after);
                let dk = after.key as int - before.key as int;
                let dl = length_delta(before, after);
                let dc = byte_delta(before.channel, after.channel);
                let dv = byte_delta(before.velocity, after.velocity);
                &&& final(self).delta_note_pos@ == if ds != 0 || dk != 0 {
                    old(self).delta_note_pos@.insert(id, (ds as SignedMIDITick, dk as i16))
                } else {
                    old(self).delta_note_pos@
                }
                &&& final(self).delta_note_lengths@ == if dl != 0 {
                    old(self).delta_note_lengths@.insert(id, dl as SignedMIDITick)
                } else {
                    old(self).delta_note_lengths@
                }
                &&& final(self).delta_note_channels@ == if dc != 0 {
                    old(self).delta_note_channels@.insert(id, dc as i8)
                } else {
                    old(self).delta_note_channels@
                }
                &&& final(self).delta_note_velocities@ == if dv != 0 {
                    old(self).delta_note_velocities@.insert(id, dv as i8)
                } else {
                    old(self).delta_note_velocities@
                }
                &&& final(self).notes_to_add@ == old(self).notes_to_add@
            }),
    {
        let new_start: SignedMIDITick = #[verifier::truncate] (after.start as SignedMIDITick);
        let old_start: SignedMIDITick = #[verifier::truncate] (before.start as SignedMIDITick);
        let new_length: SignedMIDITick = #[verifier::truncate] (after.length as SignedMIDITick);
        let old_length: SignedMIDITick = #[verifier::truncate] (before.length as SignedMIDITick);
        let new_channel: i8 = #[verifier::truncate] (after.channel as i8);
        let old_channel: i8 = #[verifier::truncate] (before.channel as i8);
        let new_velocity: i8 = #[verifier::truncate] (after.velocity as i8);
        let old_velocity: i8 = #[verifier::truncate] (before.velocity as i8);

        let delta_start = new_start - old_start;
        let delta_key = after.key as i16 - before.key as i16;
        let delta_length = new_length - old_length;
        let delta_channel = new_channel - old_channel;
        let delta_velocity = new_velocity - old_velocity;

        if delta_start != 0 || delta_key != 0 {
            self.delta_note_pos.insert(id, (delta_start, delta_key));
        }
        if delta_length != 0 {
            self.delta_note_lengths.insert(id, delta_length);
        }
        if delta_channel != 0 {
            self.delta_note_channels.insert(id, delta_channel);
        }
        if delta_velocity != 0 {
            self.delta_note_velocities.insert(id, delta_velocity);
        }
    }

    /// Applies the gathered changes to `track`: the moved notes (the script
    /// changed them in place) are taken out, put in order by start and
    /// merged back; the added notes are put in order and merged in. The
    /// changes, the moves and the placement are recorded as one action, if
    /// there is any.
    #[verifier::spinoff_prover]
    #[verifier::rlimit(40)]
    pub fn apply_changes(self, track: u16, note_editing: &mut NoteEditing, editor_actions: &mut EditorActions)
        requires
            (track as int) < old(note_editing).notes@.len(),
            tracks_view(old(note_editing).notes@)[track as int].len() + self.notes_to_add@.len() <= usize::MAX,
            old(editor_actions).wf(),
            old(editor_actions).max_actions_spec() > 0,
        ensures
            exists|kc: Seq<usize>, kv: Seq<usize>, kl: Seq<usize>, kp: Seq<usize>|
                #![trigger sorted_keys_of(kc, self.delta_note_channels@), sorted_keys_of(kv, self.delta_note_velocities@), sorted_keys_of(kl, self.delta_note_lengths@), sorted_keys_of(kp, self.delta_note_pos@)]
            {
                &&& sorted_keys_of(kc, self.delta_note_channels@)
                &&& sorted_keys_of(kv, self.delta_note_velocities@)
                &&& sorted_keys_of(kl, self.delta_note_lengths@)
                &&& sorted_keys_of(kp, self.delta_note_pos@)
                &&& {
                    let t0 = tracks_view(old(note_editing).notes@)[track as int];
                    let t1 = moved_back(t0, kp);
                    let add = self.notes_to_add@;
                    let placed = if add.len() > 0 {
                        Some(ints_as_usizes(merge_positions(t1, sort_spec(add))))
                    } else {
                        None
                    };
                    let acts = gathered_actions(
                        self.delta_note_channels@,
                        self.delta_note_velocities@,
                        self.delta_note_lengths@,
                        self.delta_note_pos@,
                        kc,
                        kv,
                        kl,
                        kp,
                        placed,
                        track,
                    );
                    &&& tracks_view(final(note_editing).notes@) == tracks_view(old(note_editing).notes@).update(
                        track as int,
                        with_added(t1, add),
                    )
                    &&& acts.len() > 0 ==> final(editor_actions).registered_from(old(editor_actions), ActionView::Bulk(acts))
                    &&& acts.len() == 0 ==> *final(editor_actions) == *old(editor_actions)
                }
            },
            final(note_editing).selected_note_ids@ == old(note_editing).selected_note_ids@,
            final(note_editing).notes@.len() == old(note_editing).notes@.len(),
            final(note_editing).same_besides_edit_state(old(note_editing)),
    {
        let ghost chan = self.delta_note_channels@;
        let ghost vel = self.delta_note_velocities@;
        let ghost len = self.delta_note_lengths@;
        let ghost pos = self.delta_note_pos@;
        let ghost add = self.notes_to_add@;
        let ghost t0 = tracks_view(note_editing.notes@)[track as int];
        let ghost all0 = tracks_view(note_editing.notes@);
        let LuaNoteEditing { delta_note_pos, delta_note_lengths, delta_note_channels, delta_note_velocities, notes_to_add } = self;

        let mut bulk_actions: Vec<EditorAction> = Vec::new();
        let (c_ids, c_vals) = listed(&delta_note_channels);
        let ghost kc = c_ids@;
        let ghost a1: Seq<ActionView> = if kc.len() > 0 { seq![ActionView::ChannelChange(kc, values_at(kc, chan), track)] } else { Seq::empty() };
        if c_ids.len() > 0 {
            bulk_actions.push(EditorAction::ChannelChange(c_ids, c_vals, track));
        }
        assert(actions_view(bulk_actions@) =~= a1);

        let (v_ids, v_vals) = listed(&delta_note_velocities);
        let ghost kv = v_ids@;
        let ghost a2: Seq<ActionView> = if kv.len() > 0 { seq![ActionView::VelocityChange(kv, values_at(kv, vel), track)] } else { Seq::empty() };
        if v_ids.len() > 0 {
            bulk_actions.push(EditorAction::VelocityChange(v_ids, v_vals, track));
        }
        assert(actions_view(bulk_actions@) =~= a1 + a2);

        let (l_ids, l_vals) = listed(&delta_note_lengths);
        let ghost kl = l_ids@;
        let ghost a3: Seq<ActionView> = if kl.len() > 0 { seq![ActionView::LengthChange(kl, values_at(kl, len), track)] } else { Seq::empty() };
        if l_ids.len() > 0 {
            bulk_actions.push(EditorAction::LengthChange(l_ids, l_vals, track));
        }
        assert(actions_view(bulk_actions@) =~= a1 + a2 + a3);

        let (p_ids, p_vals) = listed(&delta_note_pos);
        let ghost kp = p_ids@;
        let ghost a4: Seq<ActionView> = if kp.len() > 0 { seq![ActionView::NotesMove(kp, values_at(kp, pos), track, true)] } else { Seq::empty() };
        let ghost t1 = moved_back(t0, kp);
        if p_ids.len() > 0 {
            let old_notes = note_editing.take_notes_in_track(track);
            let (moved, rest) = extract(old_notes, p_ids.as_slice());
            proof {
                lemma_extract_from_multiset(t0, kp, 0, 0);
                assert(t0.skip(0) =~= t0);
                lemma_sort_spec(moved@);
            }
            let moved_sorted = sort_by_time(moved);
            let merged = merge_notes(rest, moved_sorted);
            note_editing.set_notes_in_track(track, merged);
            bulk_actions.push(EditorAction::NotesMove(p_ids, p_vals, track, true));
        }
        assert(actions_view(bulk_actions@) =~= a1 + a2 + a3 + a4);
        assert(tracks_view(note_editing.notes@) =~= all0.update(track as int, t1));
        proof {
            crate::timed_seq::lemma_merge_len(extract_spec(t0, kp).1, sort_spec(extract_spec(t0, kp).0));
            lemma_extract_from_multiset(t0, kp, 0, 0);
            lemma_sort_spec(extract_spec(t0, kp).0);
            assert(t1.len() == t0.len());
        }

        let ghost placed: Option<Seq<usize>> = if add.len() > 0 {
            Some(ints_as_usizes(merge_positions(t1, sort_spec(add))))
        } else {
            None
        };
        let ghost a5: Seq<ActionView> = match placed {
            Some(ids) => seq![ActionView::PlaceNotes(ids, None, track)],
            None => Seq::empty(),
        };
        if notes_to_add.len() > 0 {
            proof {
                lemma_sort_spec(add);
            }
            let sorted_add = sort_by_time(notes_to_add);
            let old_notes = note_editing.take_notes_in_track(track);
            let (merged, ids) = merge_notes_and_return_ids(old_notes, sorted_add);
            proof {
                lemma_merge_positions(t1, sort_spec(add));
                assert(ids@ =~= ints_as_usizes(merge_positions(t1, sort_spec(add)))) by {
                    assert forall|i: int| 0 <= i < ids@.len() implies ids@[i] == ints_as_usizes(merge_positions(t1, sort_spec(add)))[i] by {
                        assert(usizes_as_ints(ids@)[i] == ids@[i] as int);
                    }
                }
            }
            note_editing.set_notes_in_track(track, merged);
            bulk_actions.push(EditorAction::PlaceNotes(ids, None, track));
        }
        let ghost acts = gathered_actions(chan, vel, len, pos, kc, kv, kl, kp, placed, track);
        assert(actions_view(bulk_actions@) =~= acts);
        assert(tracks_view(note_editing.notes@) =~= all0.update(track as int, with_added(t1, add)));
        if bulk_actions.len() > 0 {
            let bulk = EditorAction::Bulk(bulk_actions);
            proof {
                if let ActionView::Bulk(inner) = action_view(bulk) {
                    assert(inner =~= acts);
                }
            }
            editor_actions.register_action(bulk);
        }
        proof {
            assert(sorted_keys_of(kc, chan) && sorted_keys_of(kv, vel) && sorted_keys_of(kl, len) && sorted_keys_of(kp, pos));
        }
    }
}

} // verus!
