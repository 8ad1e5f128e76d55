use vstd::prelude::*;
use std::collections::HashMap;
use vstd::std_specs::iter::IteratorSpec;
use crate::midi_types::{MIDITick, SignedMIDITick, Note};
use crate::timed_seq::reversed;

verus! {

broadcast use vstd::std_specs::hash::group_hash_axioms;

/// Values strictly increasing: sorted and without repeats.
pub open spec fn strictly_increasing_u16(s: Seq<u16>) -> bool {
    forall|i: int, j: int| 0 <= i < j < s.len() ==> s[i] < s[j]
}

/// Values strictly increasing: sorted and without repeats.
pub open spec fn strictly_increasing_usize(s: Seq<usize>) -> bool {
    forall|i: int, j: int| 0 <= i < j < s.len() ==> s[i] < s[j]
}

/// The tracks of a list of pairs, read off in order.
pub open spec fn pair_tracks<V>(s: Seq<(u16, V)>) -> Seq<u16> {
    Seq::new(s.len(), |i: int| s[i].0)
}

/// The keys of `m`, each once, in the order the map hands them out.
fn tracks_of<V>(m: &HashMap<u16, V>) -> (r: Vec<u16>)
    ensures
        r@.no_duplicates(),
        r@.len() == m@.dom().len(),
        forall|k: u16| #[trigger] m@.contains_key(k) <==> r@.contains(k),
{
    let mut keys: Vec<u16> = Vec::new();
    for (track, v) in it: m.iter()
        invariant
            it.seq() == m.iter().remaining(),
            keys@.len() == it.index(),
            forall|i: int| 0 <= i < it.index() ==> keys@[i] == *it.seq()[i].0,
    {
        keys.push(*track);
    }
    proof {
        let s = m.iter().remaining();
        assert forall|i: int, j: int| 0 <= i < keys@.len() && 0 <= j < keys@.len() && i != j implies keys@[i] != keys@[j] by {
            if keys@[i] == keys@[j] {
                assert(m@.contains_key(*s[i].0));
                assert(m@.contains_key(*s[j].0));
                assert(s[i] == s[j]);
            }
        }
        assert forall|k: u16| #[trigger] m@.contains_key(k) <==> keys@.contains(k) by {
            if m@.contains_key(k) {
                assert(s.contains((&k, &m@[k])));
                let i = choose|i: int| 0 <= i < s.len() && s[i] == (&k, &m@[k]);
                assert(keys@[i] == k);
            }
            if keys@.contains(k) {
                let i = choose|i: int| 0 <= i < keys@.len() && keys@[i] == k;
                assert(m@.contains_key(*s[i].0));
            }
        }
    }
    keys
}

/// Puts `x` into a strictly increasing list of tracks, unless it is there.
fn insert_track_sorted(v: &mut Vec<u16>, x: u16)
    requires
        strictly_increasing_u16(old(v)@),
    ensures
        strictly_increasing_u16(final(v)@),
        forall|y: u16| #[trigger] final(v)@.contains(y) <==> (old(v)@.contains(y) || y == x),
{
    let mut i: usize = 0;
    while i < v.len() && v[i] < x
        invariant
            i <= v.len(),
            strictly_increasing_u16(v@),
            forall|k: int| 0 <= k < i ==> v@[k] < x,
        decreases v.len() - i,
    {
        i = i + 1;
    }
    if i < v.len() && v[i] == x {
        return;
    }
    let ghost before = v@;
    v.insert(i, x);
    proof {
        assert(v@ == before.subrange(0, i as int).push(x) + before.subrange(i as int, before.len() as int));
        assert forall|y: u16| #[trigger] v@.contains(y) <==> (before.contains(y) || y == x) by {
            if v@.contains(y) {
                let k = choose|k: int| 0 <= k < v@.len() && v@[k] == y;
                if k < i {
                    assert(before[k] == y);
                } else if k > i {
                    assert(before[k - 1] == y);
                }
            }
            if before.contains(y) {
                let k = choose|k: int| 0 <= k < before.len() && before[k] == y;
                if k < i {
                    assert(v@[k] == y);
                } else {
                    assert(v@[k + 1] == y);
                }
            }
            if y == x {
                assert(v@[i as int] == x);
            }
        }
    }
}

/// The keys of `m` in ascending order.
fn sorted_tracks_of<V>(m: &HashMap<u16, V>) -> (r: Vec<u16>)
    ensures
        strictly_increasing_u16(r@),
        forall|t: u16| #[trigger] r@.contains(t) <==> m@.contains_key(t),
{
    let keys = tracks_of(m);
    let mut tracks: Vec<u16> = Vec::new();
    let n = keys.len();
    for i in 0..n
        invariant
            n == keys@.len(),
            strictly_increasing_u16(tracks@),
            forall|t: u16| #[trigger] tracks@.contains(t) <==> keys@.subrange(0, i as int).contains(t),
    {
        insert_track_sorted(&mut tracks, keys[i]);
        proof {
            lemma_prefix_step(keys@, i as int);
        }
    }
    assert(keys@.subrange(0, n as int) =~= keys@);
    tracks
}

/// Puts `x` into a strictly increasing list of ids, unless it is there.
pub(crate) fn insert_id_sorted(v: &mut Vec<usize>, x: usize)
    requires
        strictly_increasing_usize(old(v)@),
    ensures
        strictly_increasing_usize(final(v)@),
        forall|y: usize| #[trigger] final(v)@.contains(y) <==> (old(v)@.contains(y) || y == x),
{
    let mut i: usize = 0;
    while i < v.len() && v[i] < x
        invariant
            i <= v.len(),
            strictly_increasing_usize(v@),
            forall|k: int| 0 <= k < i ==> v@[k] < x,
        decreases v.len() - i,
    {
        i = i + 1;
    }
    if i < v.len() && v[i] == x {
        return;
    }
    let ghost before = v@;
    v.insert(i, x);
    proof {
        assert(v@ == before.subrange(0, i as int).push(x) + before.subrange(i as int, before.len() as int));
        assert forall|y: usize| #[trigger] v@.contains(y) <==> (before.contains(y) || y == x) by {
            if v@.contains(y) {
                let k = choose|k: int| 0 <= k < v@.len() && v@[k] == y;
                if k < i {
                    assert(before[k] == y);
                } else if k > i {
                    assert(before[k - 1] == y);
                }
            }
            if before.contains(y) {
                let k = choose|k: int| 0 <= k < before.len() && before[k] == y;
                if k < i {
                    assert(v@[k] == y);
                } else {
                    assert(v@[k + 1] == y);
                }
            }
            if y == x {
                assert(v@[i as int] == x);
            }
        }
    }
}

pub(crate) proof fn lemma_prefix_step<T>(s: Seq<T>, i: int)
    requires
        0 <= i < s.len(),
    ensures
        forall|y: T| #[trigger] s.subrange(0, i + 1).contains(y) <==> (s.subrange(0, i).contains(y) || y == s[i]),
{
    assert(s.subrange(0, i + 1) =~= s.subrange(0, i).push(s[i]));
    assert forall|y: T| #[trigger] s.subrange(0, i + 1).contains(y) <==> (s.subrange(0, i).contains(y) || y == s[i]) by {
        let p = s.subrange(0, i);
        if s.subrange(0, i + 1).contains(y) {
            let k = choose|k: int| 0 <= k < i + 1 && #[trigger] s.subrange(0, i + 1)[k] == y;
            if k < i {
                assert(p[k] == y);
            }
        }
        if p.contains(y) {
            let k = choose|k: int| 0 <= k < i && #[trigger] p[k] == y;
            assert(s.subrange(0, i + 1)[k] == y);
        }
        if y == s[i] {
            assert(s.subrange(0, i + 1)[i] == y);
        }
    }
}

/// Each track's ids, by their view.
pub open spec fn ids_view(m: Map<u16, Vec<usize>>) -> Map<u16, Seq<usize>> {
    m.map_values(|w: Vec<usize>| w@)
}

proof fn lemma_insert_then_view(m: Map<u16, Vec<usize>>, track: u16)
    ensures
        forall|v: Vec<usize>| #[trigger] ids_view(m.insert(track, v)) == ids_view(m).insert(track, v@),
{
    assert forall|v: Vec<usize>| #[trigger] ids_view(m.insert(track, v)) == ids_view(m).insert(track, v@) by {
        assert(ids_view(m.insert(track, v)) =~= ids_view(m).insert(track, v@));
    }
}

/// The note ids selected in each track.
pub struct SharedSelectedNotes {
    selected_notes_hash: HashMap<u16, Vec<usize>>,
}

impl View for SharedSelectedNotes {
    type V = Map<u16, Seq<usize>>;

    closed spec fn view(&self) -> Map<u16, Seq<usize>> {
        ids_view(self.selected_notes_hash@)
    }
}

impl Default for SharedSelectedNotes {
    fn default() -> (r: Self)
        ensures
            r@ == Map::<u16, Seq<usize>>::empty(),
    {
        let r = SharedSelectedNotes { selected_notes_hash: HashMap::new() };
        assert(r@ =~= Map::<u16, Seq<usize>>::empty());
        r
    }
}

impl SharedSelectedNotes {
    /// The tracks that have an entry, in ascending order.
    pub fn get_active_selected_tracks(&self) -> (r: Vec<u16>)
        ensures
            strictly_increasing_u16(r@),
            forall|t: u16| #[trigger] r@.contains(t) <==> self@.contains_key(t),
    {
        let tracks = sorted_tracks_of(&self.selected_notes_hash);
        proof {
            assert forall|t: u16| #[trigger] tracks@.contains(t) <==> self@.contains_key(t) by {
                assert(self@.contains_key(t) <==> self.selected_notes_hash@.contains_key(t));
            }
        }
        tracks
    }

    /// The ids selected in `track`, if it has an entry.
    pub fn get_selected_ids_in_track(&self, track: u16) -> (r: Option<&Vec<usize>>)
        ensures
            match r {
                Some(ids) => self@.contains_key(track) && self@[track] == ids@,
                None => !self@.contains_key(track),
            },
    {
        self.selected_notes_hash.get(&track)
    }

    /// The ids selected in `track`, to be changed in place; a track without
    /// an entry gets an empty one first.
    pub fn get_selected_ids_mut(&mut self, track: u16) -> (r: &mut Vec<usize>)
        ensures
            (*r)@ == (if old(self)@.contains_key(track) { old(self)@[track] } else { Seq::<usize>::empty() }),
            final(self)@ == old(self)@.insert(track, (*final(r))@),
    {
        proof {
            lemma_insert_then_view(self.selected_notes_hash@, track);
        }
        self.selected_notes_hash.entry(track).or_insert(Vec::new())
    }

    /// Every track with an entry, paired with its ids, in no particular order.
    pub fn get_selected(&self) -> (r: Vec<(u16, &Vec<usize>)>)
        ensures
            r@.len() == self@.dom().len(),
            forall|i: int, j: int| 0 <= i < j < r@.len() ==> r@[i].0 != r@[j].0,
            forall|i: int| 0 <= i < r@.len() ==> #[trigger] self@.contains_key(r@[i].0) && self@[r@[i].0] == r@[i].1@,
    {
        let mut retrieved: Vec<(u16, &Vec<usize>)> = Vec::with_capacity(self.selected_notes_hash.len());
        for (track, note_ids) in it: self.selected_notes_hash.iter()
            invariant
                it.seq() == self.selected_notes_hash.iter().remaining(),
                retrieved@.len() == it.index(),
                forall|i: int| 0 <= i < it.index() ==> retrieved@[i].0 == *it.seq()[i].0 && retrieved@[i].1 == *it.seq()[i].1,
        {
            retrieved.push((*track, note_ids));
        }
        proof {
            let s = self.selected_notes_hash.iter().remaining();
            assert(self@.dom() == self.selected_notes_hash@.dom());
            assert forall|i: int, j: int| 0 <= i < j < retrieved@.len() implies retrieved@[i].0 != retrieved@[j].0 by {
                if retrieved@[i].0 == retrieved@[j].0 {
                    assert(self.selected_notes_hash@.contains_key(*s[i].0));
                    assert(self.selected_notes_hash@.contains_key(*s[j].0));
                    assert(s[i] == s[j]);
                }
            }
        }
        retrieved
    }

    /// Makes `ids` the selection of `track`.
    pub fn set_selected_in_track(&mut self, ids: Vec<usize>, track: u16)
        ensures
            final(self)@ == old(self)@.insert(track, ids@),
    {
        self.selected_notes_hash.insert(track, ids);
        assert(final(self)@ =~= old(self)@.insert(track, ids@));
    }

    /// Adds `ids` to the selection of `track`; the selection ends up sorted,
    /// each id once.
    pub fn add_selected_to_track(&mut self, ids: Vec<usize>, track: u16)
        ensures
            final(self)@.dom() == old(self)@.dom().insert(track),
            forall|t: u16| t != track && #[trigger] old(self)@.contains_key(t) ==> final(self)@[t] == old(self)@[t],
            strictly_increasing_usize(final(self)@[track]),
            forall|id: usize| #[trigger] final(self)@[track].contains(id) <==> (ids@.contains(id) || (
                old(self)@.contains_key(track) && old(self)@[track].contains(id))),
    {
        let previous = self.take_selected_from_track(track);
        let ghost mid = self@;
        let mut selected: Vec<usize> = Vec::new();
        let all = previous.len() + 0;
        for i in 0..all
            invariant
                all == previous@.len(),
                strictly_increasing_usize(selected@),
                forall|y: usize| #[trigger] selected@.contains(y) <==> previous@.subrange(0, i as int).contains(y),
        {
            insert_id_sorted(&mut selected, previous[i]);
            proof {
                lemma_prefix_step(previous@, i as int);
            }
        }
        assert(previous@.subrange(0, all as int) =~= previous@);
        let more = ids.len();
        for i in 0..more
            invariant
                more == ids@.len(),
                strictly_increasing_usize(selected@),
                forall|y: usize| #[trigger] selected@.contains(y) <==> (previous@.contains(y) || ids@.subrange(0, i as int).contains(y)),
        {
            insert_id_sorted(&mut selected, ids[i]);
            proof {
                lemma_prefix_step(ids@, i as int);
            }
        }
        assert(ids@.subrange(0, more as int) =~= ids@);
        self.selected_notes_hash.insert(track, selected);
        proof {
            assert(final(self)@ =~= mid.insert(track, selected@));
            assert(final(self)@.dom() =~= old(self)@.dom().insert(track));
        }
    }

    /// Hands out the selection of `track`, leaving an empty one in its place.
    pub fn take_selected_from_track(&mut self, track: u16) -> (r: Vec<usize>)
        ensures
            r@ == (if old(self)@.contains_key(track) { old(self)@[track] } else { Seq::<usize>::empty() }),
            final(self)@ == old(self)@.insert(track, Seq::<usize>::empty()),
    {
        let previous = self.selected_notes_hash.insert(track, Vec::new());
        assert(final(self)@ =~= old(self)@.insert(track, Seq::<usize>::empty()));
        match previous {
            Some(ids) => ids,
            None => Vec::new(),
        }
    }

    /// Hands out every selection and leaves none; the pairs come in no
    /// particular order.
    pub fn take_selected_from_all(&mut self) -> (r: Vec<(u16, Vec<usize>)>)
        ensures
            final(self)@ == Map::<u16, Seq<usize>>::empty(),
            r@.len() == old(self)@.dom().len(),
            forall|i: int, j: int| 0 <= i < j < r@.len() ==> r@[i].0 != r@[j].0,
            forall|i: int| 0 <= i < r@.len() ==> #[trigger] old(self)@.contains_key(r@[i].0) && old(self)@[r@[i].0] == r@[i].1@,
    {
        let tracks = tracks_of(&self.selected_notes_hash);
        let ghost old_map = self.selected_notes_hash@;
        let mut result: Vec<(u16, Vec<usize>)> = Vec::new();
        let n = tracks.len();
        for i in 0..n
            invariant
                n == tracks@.len(),
                tracks@.no_duplicates(),
                forall|k: u16| #[trigger] old_map.contains_key(k) <==> tracks@.contains(k),
                forall|k: u16| #[trigger] self.selected_notes_hash@.contains_key(k) <==> (old_map.contains_key(k)
                    && !tracks@.subrange(0, i as int).contains(k)),
                forall|k: u16| #[trigger] self.selected_notes_hash@.contains_key(k) ==> self.selected_notes_hash@[k]
                    == old_map[k],
                result@.len() == i,
                forall|k: int| 0 <= k < i ==> #[trigger] result@[k].0 == tracks@[k],
                forall|k: int| 0 <= k < i ==> old_map[tracks@[k]] == #[trigger] result@[k].1,
        {
            let t = tracks[i];
            proof {
                assert(tracks@.contains(t));
                lemma_prefix_step(tracks@, i as int);
                if tracks@.subrange(0, i as int).contains(t) {
                    let k = choose|k: int| 0 <= k < i && #[trigger] tracks@.subrange(0, i as int)[k] == t;
                    assert(tracks@[k] == tracks@[i as int]);
                }
                assert(self.selected_notes_hash@.contains_key(t));
            }
            let ghost before = self.selected_notes_hash@;
            let ghost prev = result@;
            let removed = self.selected_notes_hash.remove(&t);
            let ids = removed.unwrap();
            assert(ids == before[t]);
            assert(ids == old_map[t]);
            result.push((t, ids));
            assert(result@[i as int].1 == old_map[tracks@[i as int]]);
            assert forall|k: int| 0 <= k < i + 1 implies old_map[tracks@[k]] == #[trigger] result@[k].1 by {
                if k < i {
                    assert(result@[k] == prev[k]);
                }
            }
        }
        proof {
            assert(tracks@.subrange(0, n as int) =~= tracks@);
            assert(self.selected_notes_hash@ =~= Map::<u16, Vec<usize>>::empty());
            assert(final(self)@ =~= Map::<u16, Seq<usize>>::empty());
            assert(old(self)@.dom() == old_map.dom());
            assert(old_map.dom() =~= tracks@.to_set());
            tracks@.unique_seq_to_set();
            assert forall|a: int, b: int| 0 <= a < b < result@.len() implies result@[a].0 != result@[b].0 by {
                assert(result@[a].0 == tracks@[a]);
                assert(result@[b].0 == tracks@[b]);
            }
            assert forall|a: int| 0 <= a < result@.len() implies #[trigger] old(self)@.contains_key(result@[a].0) && old(self)@[result@[a].0] == result@[a].1@ by {
                assert(result@[a].0 == tracks@[a]);
                assert(tracks@.contains(tracks@[a]));
            }
        }
        result
    }

    /// Drops every selection.
    pub fn clear_selected(&mut self)
        ensures
            final(self)@ == Map::<u16, Seq<usize>>::empty(),
    {
        self.selected_notes_hash.clear();
        assert(final(self)@ =~= Map::<u16, Seq<usize>>::empty());
    }

    /// Whether some track has at least one selected id.
    pub fn is_any_note_selected(&self) -> (r: bool)
        ensures
            r <==> exists|t: u16| #[trigger] self@.contains_key(t) && self@[t].len() > 0,
    {
        if self.selected_notes_hash.is_empty() {
            proof {
                assert forall|t: u16| !#[trigger] self@.contains_key(t) by {
                    assert(!self.selected_notes_hash@.contains_key(t));
                }
            }
            return false;
        }
        for (track, ids) in it: self.selected_notes_hash.iter()
            invariant
                it.seq() == self.selected_notes_hash.iter().remaining(),
                forall|i: int| 0 <= i < it.index() ==> (*it.seq()[i].1)@.len() == 0,
        {
            if ids.len() > 0 {
                proof {
                    let s = self.selected_notes_hash.iter().remaining();
                    let i = it.index();
                    assert(self.selected_notes_hash@.contains_key(*s[i].0));
                    assert(self@.contains_key(*track));
                }
                return true;
            }
        }
        proof {
            let s = self.selected_notes_hash.iter().remaining();
            assert forall|t: u16| #[trigger] self@.contains_key(t) implies self@[t].len() == 0 by {
                assert(s.contains((&t, &self.selected_notes_hash@[t])));
                let i = choose|i: int| 0 <= i < s.len() && s[i] == (&t, &self.selected_notes_hash@[t]);
                assert((*s[i].1)@.len() == 0);
            }
        }
        false
    }

    /// Whether `id` is selected in `track`.
    pub fn selected_ids_in_track_contains(&self, track: u16, id: usize) -> (r: bool)
        ensures
            r <==> (self@.contains_key(track) && self@[track].contains(id)),
    {
        match self.get_selected_ids_in_track(track) {
            Some(ids) => {
                let n = ids.len();
                for i in 0..n
                    invariant
                        n == ids@.len(),
                        self@.contains_key(track) && self@[track] == ids@,
                        forall|k: int| 0 <= k < i ==> ids@[k] != id,
                {
                    if ids[i] == id {
                        assert(ids@[i as int] == id);
                        assert(ids@.contains(id));
                        return true;
                    }
                }
                false
            },
            None => false,
        }
    }

    /// How many ids are selected in `track`.
    pub fn get_num_selected_in_track(&self, track: u16) -> (r: usize)
        ensures
            r == (if self@.contains_key(track) { self@[track].len() } else { 0 }),
    {
        match self.get_selected_ids_in_track(track) {
            Some(ids) => ids.len(),
            None => 0,
        }
    }
}

/// Each track's notes, by their view.
pub open spec fn notes_view(m: Map<u16, Vec<Note>>) -> Map<u16, Seq<Note>> {
    m.map_values(|w: Vec<Note>| w@)
}

/// The clipboard that the first `n` pairs of `notes` and `tracks` make, a
/// later pair for a track replacing an earlier one.
pub open spec fn clipboard_from(notes: Seq<Seq<Note>>, tracks: Seq<u16>, n: int) -> Map<u16, Seq<Note>>
    decreases n,
{
    if n <= 0 {
        Map::empty()
    } else {
        clipboard_from(notes, tracks, n - 1).insert(tracks[n - 1], notes[n - 1])
    }
}

/// A copy of `notes`.
fn copy_notes(notes: &Vec<Note>) -> (r: Vec<Note>)
    ensures
        r@ == notes@,
{
    let mut r: Vec<Note> = Vec::with_capacity(notes.len());
    let n = notes.len();
    for i in 0..n
        invariant
            n == notes@.len(),
            r@ == notes@.subrange(0, i as int),
    {
        r.push(notes[i]);
        assert(r@ =~= notes@.subrange(0, i + 1));
    }
    assert(r@ =~= notes@);
    r
}

/// Notes that were copied, per track.
pub struct SharedClipboard {
    notes_clipboard_map: HashMap<u16, Vec<Note>>,
    pub offset_from_playhead: SignedMIDITick,
}

impl View for SharedClipboard {
    type V = Map<u16, Seq<Note>>;

    closed spec fn view(&self) -> Map<u16, Seq<Note>> {
        notes_view(self.notes_clipboard_map@)
    }
}

impl Default for SharedClipboard {
    fn default() -> (r: Self)
        ensures
            r@ == Map::<u16, Seq<Note>>::empty(),
            r.offset_spec() == 0,
    {
        let r = SharedClipboard { notes_clipboard_map: HashMap::new(), offset_from_playhead: 0 };
        assert(r@ =~= Map::<u16, Seq<Note>>::empty());
        r
    }
}

impl SharedClipboard {
    /// How far the pasted notes are placed from the playhead.
    pub closed spec fn offset_spec(&self) -> SignedMIDITick {
        self.offset_from_playhead
    }

    /// How far the pasted notes are placed from the playhead.
    pub fn get_offset_from_playhead(&self) -> (r: SignedMIDITick)
        ensures
            r == self.offset_spec(),
    {
        self.offset_from_playhead
    }

    /// Sets how far the pasted notes are placed from the playhead.
    pub fn set_offset_from_playhead(&mut self, offset: SignedMIDITick)
        ensures
            final(self)@ == old(self)@,
            final(self).offset_spec() == offset,
    {
        self.offset_from_playhead = offset;
    }

    /// Puts `notes` on the clipboard for `track`, after emptying the
    /// clipboard when `clear_clipboard` is set.
    pub fn move_notes_to_clipboard(&mut self, notes: Vec<Note>, track: u16, clear_clipboard: bool)
        ensures
            final(self)@ == (if clear_clipboard { Map::<u16, Seq<Note>>::empty() } else { old(self)@ }).insert(
                track,
                notes@,
            ),
            final(self).offset_spec() == old(self).offset_spec(),
    {
        if clear_clipboard {
            self.notes_clipboard_map.clear();
        }
        let ghost before = self.notes_clipboard_map@;
        self.notes_clipboard_map.insert(track, notes);
        assert(notes_view(self.notes_clipboard_map@) =~= notes_view(before).insert(track, notes@));
        assert(notes_view(Map::<u16, Vec<Note>>::empty()) =~= Map::<u16, Seq<Note>>::empty());
    }

    /// Replaces the clipboard by the pairs of `notes` and `tracks`, as far
    /// as both go.
    pub fn move_multi_notes_to_clipboard(&mut self, notes: Vec<Vec<Note>>, tracks: Vec<u16>)
        ensures
            final(self)@ == clipboard_from(
                Seq::new(notes@.len(), |i: int| notes@[i]@),
                tracks@,
                if notes@.len() < tracks@.len() { notes@.len() as int } else { tracks@.len() as int },
            ),
            final(self).offset_spec() == old(self).offset_spec(),
    {
        let ghost views = Seq::new(notes@.len(), |i: int| notes@[i]@);
        self.notes_clipboard_map.clear();
        let count = if notes.len() < tracks.len() { notes.len() } else { tracks.len() };
        let ghost all = notes@;
        let mut rest = reversed(notes);
        assert(notes_view(self.notes_clipboard_map@) =~= clipboard_from(views, tracks@, 0));
        for i in 0..count
            invariant
                count <= all.len(),
                count <= tracks@.len(),
                views == Seq::new(all.len(), |k: int| all[k]@),
                rest@ == all.subrange(i as int, all.len() as int).reverse(),
                notes_view(self.notes_clipboard_map@) == clipboard_from(views, tracks@, i as int),
                self.offset_spec() == old(self).offset_spec(),
        {
            let ghost before = self.notes_clipboard_map@;
            let next = rest.pop().unwrap();
            proof {
                assert(next == all[i as int]);
                assert(rest@ =~= all.subrange(i + 1, all.len() as int).reverse());
            }
            self.notes_clipboard_map.insert(tracks[i], next);
            assert(notes_view(self.notes_clipboard_map@) =~= notes_view(before).insert(tracks@[i as int], next@));
        }
    }

    /// The clipboard's notes, one pair per track, in ascending order of
    /// track.
    pub fn get_notes_from_clipboard(&self) -> (r: Vec<(u16, Vec<Note>)>)
        ensures
            strictly_increasing_u16(pair_tracks(r@)),
            forall|t: u16| #[trigger] pair_tracks(r@).contains(t) <==> self@.contains_key(t),
            forall|i: int| 0 <= i < r@.len() ==> self@[#[trigger] r@[i].0] == r@[i].1@,
    {
        let tracks = sorted_tracks_of(&self.notes_clipboard_map);
        let mut retrieved: Vec<(u16, Vec<Note>)> = Vec::with_capacity(tracks.len());
        let n = tracks.len();
        for i in 0..n
            invariant
                n == tracks@.len(),
                forall|t: u16| #[trigger] tracks@.contains(t) <==> self.notes_clipboard_map@.contains_key(t),
                retrieved@.len() == i,
                forall|k: int| 0 <= k < i ==> #[trigger] retrieved@[k].0 == tracks@[k],
                forall|k: int| 0 <= k < i ==> self@[#[trigger] retrieved@[k].0] == retrieved@[k].1@,
        {
            let t = tracks[i];
            assert(tracks@.contains(t));
            let notes = self.notes_clipboard_map.get(&t).unwrap();
            let copy = copy_notes(notes);
            retrieved.push((t, copy));
        }
        proof {
            assert(pair_tracks(retrieved@) =~= tracks@);
            assert forall|t: u16| #[trigger] pair_tracks(retrieved@).contains(t) <==> self@.contains_key(t) by {
                assert(self@.contains_key(t) <==> self.notes_clipboard_map@.contains_key(t));
            }
        }
        retrieved
    }

    /// Empties the clipboard.
    pub fn clear_clipboard(&mut self)
        ensures
            final(self)@ == Map::<u16, Seq<Note>>::empty(),
            final(self).offset_spec() == old(self).offset_spec(),
    {
        self.notes_clipboard_map.clear();
        assert(final(self)@ =~= Map::<u16, Seq<Note>>::empty());
    }

    /// Whether no track has notes on the clipboard.
    pub fn is_clipboard_empty(&self) -> (r: bool)
        ensures
            r <==> self@.dom().is_empty(),
    {
        let r = self.notes_clipboard_map.is_empty();
        proof {
            assert(self@.dom() =~= self.notes_clipboard_map@.dom());
        }
        r
    }

    /// The earliest start among the first notes of the tracks on the
    /// clipboard; the largest tick when the clipboard is empty.
    pub fn get_clipboard_start_tick(&self) -> (r: MIDITick)
        requires
            forall|t: u16| #[trigger] self@.contains_key(t) ==> self@[t].len() > 0,
        ensures
            forall|t: u16| #[trigger] self@.contains_key(t) ==> r <= self@[t][0].start,
            self@.dom().is_empty() ==> r == MIDITick::MAX,
            !self@.dom().is_empty() ==> exists|t: u16| #[trigger] self@.contains_key(t) && r == self@[t][0].start,
    {
        let mut start_tick: MIDITick = MIDITick::MAX;
        for (track, notes) in it: self.notes_clipboard_map.iter()
            invariant
                it.seq() == self.notes_clipboard_map.iter().remaining(),
                forall|t: u16| #[trigger] self@.contains_key(t) ==> self@[t].len() > 0,
                forall|i: int| 0 <= i < it.index() ==> start_tick <= (*it.seq()[i].1)@[0].start,
                it.index() == 0 ==> start_tick == MIDITick::MAX,
                it.index() > 0 ==> exists|i: int| 0 <= i < it.index() && start_tick == (*it.seq()[i].1)@[0].start,
        {
            proof {
                let s = self.notes_clipboard_map.iter().remaining();
                let i = it.index();
                assert(self.notes_clipboard_map@.contains_key(*s[i].0));
                assert(self@.contains_key(*s[i].0));
            }
            let first_note_tick = notes[0].start();
            if first_note_tick <= start_tick {
                start_tick = first_note_tick;
            }
        }
        proof {
            let s = self.notes_clipboard_map.iter().remaining();
            assert(self@.dom() =~= self.notes_clipboard_map@.dom());
            assert forall|t: u16| #[trigger] self@.contains_key(t) implies start_tick <= self@[t][0].start by {
                assert(s.contains((&t, &self.notes_clipboard_map@[t])));
                let i = choose|i: int| 0 <= i < s.len() && s[i] == (&t, &self.notes_clipboard_map@[t]);
                assert(start_tick <= (*s[i].1)@[0].start);
            }
            if !self@.dom().is_empty() {
                let i = choose|i: int| 0 <= i < s.len() && start_tick == (*s[i].1)@[0].start;
                assert(self.notes_clipboard_map@.contains_key(*s[i].0));
                assert(self@.contains_key(*s[i].0));
            }
        }
        start_tick
    }
}

} // verus!
