use vstd::prelude::*;
use crate::midi_types::{Note, Timed, MIDITick, SignedMIDITick};
use crate::timed_seq::{merge_spec, merge_positions, merge_timed, usizes_as_ints};
use crate::note_sequence_funcs::{extract_spec, extract_with, sort_spec, sort_by_time, ids_valid};

verus! {

broadcast use vstd::seq_lib::group_seq_properties;

/// A moved note together with its old index and the change of position.
pub type MovedNote = (Note, (usize, (SignedMIDITick, i16)));

impl Timed for (Note, (usize, (SignedMIDITick, i16))) {
    open spec fn time(&self) -> int {
        self.0.start as int
    }

    fn get_time(&self) -> (t: MIDITick) {
        self.0.start
    }
}

/// The notes that move, paired with their old index and change of position,
/// sorted by their (new) start.
pub open spec fn moved_sorted(notes: Seq<Note>, ids_with_delta_pos: Seq<(usize, (SignedMIDITick, i16))>) -> Seq<
    MovedNote,
> {
    let ids = ids_with_delta_pos.map_values(|p: (usize, (SignedMIDITick, i16))| p.0);
    let e = extract_spec(notes, ids).0;
    sort_spec(Seq::new(e.len(), |q: int| (e[q], ids_with_delta_pos[q])))
}

pub open spec fn kept_notes(notes: Seq<Note>, ids_with_delta_pos: Seq<(usize, (SignedMIDITick, i16))>) -> Seq<
    Note,
> {
    extract_spec(notes, ids_with_delta_pos.map_values(|p: (usize, (SignedMIDITick, i16))| p.0)).1
}

pub open spec fn moved_notes_only(m: Seq<MovedNote>) -> Seq<Note> {
    m.map_values(|x: MovedNote| x.0)
}

/// Re-sorts notes after some of them (at the given indices) have moved: the
/// moved notes are taken out, sorted by start, and merged back. Returns the old
/// indices, the new indices and the changes of position of the moved notes, in
/// the order in which they were merged back.
pub fn move_notes_to(notes: &mut Vec<Note>, ids_with_delta_pos: Vec<(usize, (SignedMIDITick, i16))>) -> (r: (
    Vec<usize>,
    Vec<usize>,
    Vec<(SignedMIDITick, i16)>,
))
    requires
        ids_with_delta_pos@.len() <= old(notes)@.len(),
    ensures
        ({
            let m = moved_sorted(old(notes)@, ids_with_delta_pos@);
            let k = kept_notes(old(notes)@, ids_with_delta_pos@);
            &&& final(notes)@ == merge_spec(k, moved_notes_only(m))
            &&& r.0@ == m.map_values(|x: MovedNote| x.1.0)
            &&& usizes_as_ints(r.1@) == merge_positions(k, moved_notes_only(m))
            &&& r.2@ == m.map_values(|x: MovedNote| x.1.1)
        }),
{
    let ghost sn = notes@;
    let ghost sp = ids_with_delta_pos@;
    let total = notes.len();
    let mut ids: Vec<usize> = Vec::new();
    let mut q: usize = 0;
    while q < ids_with_delta_pos.len()
        invariant
            q <= sp.len(),
            sp == ids_with_delta_pos@,
            ids@.len() == q,
            forall|j: int| 0 <= j < q ==> #[trigger] ids@[j] == sp[j].0,
        decreases sp.len() - q,
    {
        ids.push(ids_with_delta_pos[q].0);
        q += 1;
    }
    proof {
        assert(ids@ =~= sp.map_values(|p: (usize, (SignedMIDITick, i16))| p.0));
        crate::note_sequence_funcs::lemma_extract_from_multiset(sn, ids@, 0, 0);
        assert(sn.skip(0) =~= sn);
    }
    let mut old_notes: Vec<Note> = Vec::new();
    std::mem::swap(&mut old_notes, notes);
    let (pairs, kept) = extract_with(old_notes, ids.as_slice(), ids_with_delta_pos);
    let ghost e = extract_spec(sn, ids@).0;
    proof {
        assert(pairs@ =~= Seq::new(e.len(), |q: int| (e[q], sp[q])));
    }
    let sorted = sort_by_time(pairs);
    proof {
        crate::note_sequence_funcs::lemma_sort_spec(Seq::new(e.len(), |q: int| (e[q], sp[q])));
    }
    let ghost m = sorted@;
    let mut moved: Vec<Note> = Vec::new();
    let mut old_ids: Vec<usize> = Vec::new();
    let mut changed_positions: Vec<(SignedMIDITick, i16)> = Vec::new();
    let mut q: usize = 0;
    while q < sorted.len()
        invariant
            q <= m.len(),
            m == sorted@,
            moved@.len() == q,
            old_ids@.len() == q,
            changed_positions@.len() == q,
            forall|j: int| 0 <= j < q ==> #[trigger] moved@[j] == m[j].0,
            forall|j: int| 0 <= j < q ==> #[trigger] old_ids@[j] == m[j].1.0,
            forall|j: int| 0 <= j < q ==> #[trigger] changed_positions@[j] == m[j].1.1,
        decreases m.len() - q,
    {
        let (note, (old_id, delta)) = sorted[q];
        moved.push(note);
        old_ids.push(old_id);
        changed_positions.push(delta);
        q += 1;
    }
    proof {
        assert(moved@ =~= moved_notes_only(m));
        assert(old_ids@ =~= m.map_values(|x: MovedNote| x.1.0));
        assert(changed_positions@ =~= m.map_values(|x: MovedNote| x.1.1));
        assert(kept@.len() + moved@.len() == sn.len());
    }
    let (merged, new_ids) = merge_timed(kept, moved);
    *notes = merged;
    (old_ids, new_ids, changed_positions)
}

/// The notes after setting, in turn, the start of note `ids[q]` to `ns[q]`
/// for the first `k` indices.
pub open spec fn set_starts(notes: Seq<Note>, ids: Seq<usize>, ns: Seq<MIDITick>, k: int) -> Seq<Note>
    decreases k,
{
    if k <= 0 {
        notes
    } else {
        let prev = set_starts(notes, ids, ns, k - 1);
        prev.update(ids[k - 1] as int, Note { start: ns[k - 1], ..prev[ids[k - 1] as int] })
    }
}

/// The notes after setting, in turn, the length of note `ids[q]` to `ns[q]`
/// for the first `k` indices.
pub open spec fn set_lengths(notes: Seq<Note>, ids: Seq<usize>, ns: Seq<MIDITick>, k: int) -> Seq<Note>
    decreases k,
{
    if k <= 0 {
        notes
    } else {
        let prev = set_lengths(notes, ids, ns, k - 1);
        prev.update(ids[k - 1] as int, Note { length: ns[k - 1], ..prev[ids[k - 1] as int] })
    }
}

/// `f` can be applied to `x` and moves it by a signed tick at most.
pub open spec fn tick_fn_ok<F: Fn(MIDITick) -> MIDITick>(f: F, x: MIDITick) -> bool {
    &&& f.requires((x,))
    &&& forall|y: MIDITick| f.ensures((x,), y) ==> tick_delta_fits(y, x)
}

/// A note that none of the first `k` steps sets keeps its start.
proof fn lemma_set_starts_untouched(notes: Seq<Note>, ids: Seq<usize>, ns: Seq<MIDITick>, k: int, id: int)
    requires
        0 <= k <= ids.len(),
        0 <= id < notes.len(),
        forall|j: int| 0 <= j < k ==> ids[j] as int != id && (ids[j] as int) < notes.len(),
    ensures
        set_starts(notes, ids, ns, k).len() == notes.len(),
        set_starts(notes, ids, ns, k)[id] == notes[id],
    decreases k,
{
    if k > 0 {
        lemma_set_starts_untouched(notes, ids, ns, k - 1, id);
    }
}

/// A note that none of the first `k` steps sets keeps its length.
proof fn lemma_set_lengths_untouched(notes: Seq<Note>, ids: Seq<usize>, ns: Seq<MIDITick>, k: int, id: int)
    requires
        0 <= k <= ids.len(),
        0 <= id < notes.len(),
        forall|j: int| 0 <= j < k ==> ids[j] as int != id && (ids[j] as int) < notes.len(),
    ensures
        set_lengths(notes, ids, ns, k).len() == notes.len(),
        set_lengths(notes, ids, ns, k)[id] == notes[id],
    decreases k,
{
    if k > 0 {
        lemma_set_lengths_untouched(notes, ids, ns, k - 1, id);
    }
}

/// The signed difference `new - old` of two ticks (each read as a signed tick).
pub open spec fn tick_delta(new: MIDITick, old: MIDITick) -> int {
    (new as i32) as int - (old as i32) as int
}

pub open spec fn tick_delta_fits(new: MIDITick, old: MIDITick) -> bool {
    i32::MIN <= tick_delta(new, old) <= i32::MAX
}

/// Applies `start_fn` to the start of each note at `ids`, then re-sorts the
/// track as [`move_notes_to`] does.
pub fn manipulate_note_ticks(notes: &mut Vec<Note>, ids: &Vec<usize>, start_fn: impl Fn(MIDITick) -> MIDITick) -> (r: (
    Vec<usize>,
    Vec<usize>,
    Vec<(SignedMIDITick, i16)>,
))
    requires
        ids_valid(ids@, old(notes)@.len() as int),
        forall|q: int| 0 <= q < ids@.len() ==> tick_fn_ok(start_fn, #[trigger] old(notes)@[ids@[q] as int].start),
    ensures
        exists|ns: Seq<MIDITick>|
            #![trigger set_starts(old(notes)@, ids@, ns, ids@.len() as int)]
            {
                let moved = set_starts(old(notes)@, ids@, ns, ids@.len() as int);
                let pairs = Seq::new(
                    ids@.len(),
                    |q: int|
                        (
                            ids@[q],
                            (
                                tick_delta(ns[q], set_starts(old(notes)@, ids@, ns, q)[ids@[q] as int].start) as i32,
                                0i16,
                            ),
                        ),
                );
                let m = moved_sorted(moved, pairs);
                let k = kept_notes(moved, pairs);
                &&& ns.len() == ids@.len()
                &&& forall|q: int|
                    0 <= q < ids@.len() ==> start_fn.ensures(
                        (set_starts(old(notes)@, ids@, ns, q)[ids@[q] as int].start,),
                        #[trigger] ns[q],
                    )
                &&& final(notes)@ == merge_spec(k, moved_notes_only(m))
                &&& r.0@ == m.map_values(|x: MovedNote| x.1.0)
                &&& usizes_as_ints(r.1@) == merge_positions(k, moved_notes_only(m))
                &&& r.2@ == m.map_values(|x: MovedNote| x.1.1)
            },
{
    let ghost orig = notes@;
    let ghost mut ns: Seq<MIDITick> = Seq::empty();
    let mut ids_with_delta_pos: Vec<(usize, (SignedMIDITick, i16))> = Vec::new();
    let mut q: usize = 0;
    while q < ids.len()
        invariant
            q <= ids@.len(),
            ids_valid(ids@, orig.len() as int),
            forall|k: int| 0 <= k < ids@.len() ==> tick_fn_ok(start_fn, #[trigger] orig[ids@[k] as int].start),
            ns.len() == q,
            notes@ == set_starts(orig, ids@, ns, q as int),
            notes@.len() == orig.len(),
            ids_with_delta_pos@.len() == q,
            forall|j: int|
                0 <= j < q ==> start_fn.ensures(
                    (set_starts(orig, ids@, ns, j)[ids@[j] as int].start,),
                    #[trigger] ns[j],
                ),
            forall|j: int|
                0 <= j < q ==> #[trigger] ids_with_delta_pos@[j] == (
                    ids@[j],
                    (tick_delta(ns[j], set_starts(orig, ids@, ns, j)[ids@[j] as int].start) as i32, 0i16),
                ),
        decreases ids@.len() - q,
    {
        let id = ids[q];
        proof {
            lemma_set_starts_untouched(orig, ids@, ns, q as int, id as int);
            assert(notes@[id as int].start == orig[ids@[q as int] as int].start);
            assert(tick_fn_ok(start_fn, orig[ids@[q as int] as int].start));
        }
        let mut note = notes[id];
        let old_start = note.start;
        let new_start = start_fn(old_start);
        note.start = new_start;
        notes.set(id, note);
        proof {
            assert(tick_delta_fits(new_start, old_start));
        }
        let delta = new_start as SignedMIDITick - old_start as SignedMIDITick;
        ids_with_delta_pos.push((id, (delta, 0)));
        proof {
            let ns0 = ns;
            ns = ns.push(new_start);
            assert forall|k: int| 0 <= k <= q implies set_starts(orig, ids@, ns, k)
                == set_starts(orig, ids@, ns0, k) by {
                lemma_set_starts_prefix(orig, ids@, ns0, ns, k);
            }
        }
        q += 1;
    }
    proof {
        lemma_ids_valid_len(ids@, orig.len() as int);
    }
    let ghost before = notes@;
    let ghost pairs_v = ids_with_delta_pos@;
    let r = move_notes_to(notes, ids_with_delta_pos);
    proof {
        let pairs = Seq::new(
            ids@.len(),
            |q: int|
                (
                    ids@[q],
                    (tick_delta(ns[q], set_starts(orig, ids@, ns, q)[ids@[q] as int].start) as i32, 0i16),
                ),
        );
        assert(pairs_v =~= pairs);
        assert(before == set_starts(orig, ids@, ns, ids@.len() as int));
    }
    r
}

/// Strictly increasing indices below `n` are at most `n` many.
pub proof fn lemma_ids_valid_len(ids: Seq<usize>, n: int)
    requires
        ids_valid(ids, n),
        n >= 0,
    ensures
        ids.len() <= n,
{
    assert forall|q: int| 0 <= q < ids.len() implies ids[q] >= q by {
        lemma_ids_at_least_index(ids, n, q);
    }
    if ids.len() > 0 {
        let last = ids.len() - 1;
        assert(ids[last] >= last);
        assert(ids[last] < n);
    }
}

proof fn lemma_ids_at_least_index(ids: Seq<usize>, n: int, q: int)
    requires
        ids_valid(ids, n),
        0 <= q < ids.len(),
    ensures
        ids[q] >= q,
    decreases q,
{
    if q > 0 {
        lemma_ids_at_least_index(ids, n, q - 1);
        assert(ids[q - 1] < ids[q]);
    }
}

pub proof fn lemma_set_starts_prefix(
    notes: Seq<Note>,
    ids: Seq<usize>,
    ns1: Seq<MIDITick>,
    ns2: Seq<MIDITick>,
    k: int,
)
    requires
        0 <= k <= ns1.len(),
        k <= ns2.len(),
        forall|j: int| 0 <= j < k ==> ns1[j] == ns2[j],
    ensures
        set_starts(notes, ids, ns1, k) == set_starts(notes, ids, ns2, k),
    decreases k,
{
    if k > 0 {
        lemma_set_starts_prefix(notes, ids, ns1, ns2, k - 1);
    }
}

pub proof fn lemma_set_lengths_prefix(
    notes: Seq<Note>,
    ids: Seq<usize>,
    ns1: Seq<MIDITick>,
    ns2: Seq<MIDITick>,
    k: int,
)
    requires
        0 <= k <= ns1.len(),
        k <= ns2.len(),
        forall|j: int| 0 <= j < k ==> ns1[j] == ns2[j],
    ensures
        set_lengths(notes, ids, ns1, k) == set_lengths(notes, ids, ns2, k),
    decreases k,
{
    if k > 0 {
        lemma_set_lengths_prefix(notes, ids, ns1, ns2, k - 1);
    }
}

/// Applies `length_fn` to the length of each note at `ids`, in turn; returns
/// the change of each length.
pub fn manipulate_note_lengths(notes: &mut Vec<Note>, ids: &Vec<usize>, length_fn: impl Fn(MIDITick) -> MIDITick) -> (r: Vec<
    SignedMIDITick,
>)
    requires
        forall|k: int| 0 <= k < ids@.len() ==> #[trigger] ids@[k] < old(notes)@.len(),
        forall|q: int| 0 <= q < ids@.len() ==> tick_fn_ok(length_fn, #[trigger] old(notes)@[ids@[q] as int].length),
        !ids@.no_duplicates() ==> forall|x: MIDITick| #[trigger] tick_fn_ok(length_fn, x),
    ensures
        exists|ns: Seq<MIDITick>|
            #![trigger set_lengths(old(notes)@, ids@, ns, ids@.len() as int)]
            {
                &&& ns.len() == ids@.len()
                &&& final(notes)@ == set_lengths(old(notes)@, ids@, ns, ids@.len() as int)
                &&& r@.len() == ids@.len()
                &&& forall|q: int|
                    0 <= q < ids@.len() ==> {
                        let before = set_lengths(old(notes)@, ids@, ns, q)[ids@[q] as int].length;
                        &&& length_fn.ensures((before,), #[trigger] ns[q])
                        &&& r@[q] as int == tick_delta(ns[q], before)
                    }
            },
{
    let ghost orig = notes@;
    let ghost mut ns: Seq<MIDITick> = Seq::empty();
    let mut changed_lengths: Vec<SignedMIDITick> = Vec::new();
    let mut q: usize = 0;
    while q < ids.len()
        invariant
            q <= ids@.len(),
            forall|k: int| 0 <= k < ids@.len() ==> #[trigger] ids@[k] < orig.len(),
            forall|k: int| 0 <= k < ids@.len() ==> tick_fn_ok(length_fn, #[trigger] orig[ids@[k] as int].length),
            !ids@.no_duplicates() ==> forall|x: MIDITick| #[trigger] tick_fn_ok(length_fn, x),
            ns.len() == q,
            notes@ == set_lengths(orig, ids@, ns, q as int),
            notes@.len() == orig.len(),
            changed_lengths@.len() == q,
            forall|j: int|
                0 <= j < q ==> {
                    let before = set_lengths(orig, ids@, ns, j)[ids@[j] as int].length;
                    &&& length_fn.ensures((before,), #[trigger] ns[j])
                    &&& changed_lengths@[j] as int == tick_delta(ns[j], before)
                },
        decreases ids@.len() - q,
    {
        let id = ids[q];
        proof {
            if ids@.no_duplicates() {
                assert forall|j: int| 0 <= j < q implies ids@[j] as int != id as int && (ids@[j] as int) < orig.len() by {
                    assert(ids@[j] != ids@[q as int]);
                }
                lemma_set_lengths_untouched(orig, ids@, ns, q as int, id as int);
                assert(tick_fn_ok(length_fn, orig[ids@[q as int] as int].length));
            } else {
                assert(tick_fn_ok(length_fn, notes@[id as int].length));
            }
        }
        let mut note = notes[id];
        let old_length = note.length;
        let new_length = length_fn(old_length);
        proof {
            assert(tick_delta_fits(new_length, old_length));
        }
        changed_lengths.push(new_length as SignedMIDITick - old_length as SignedMIDITick);
        note.length = new_length;
        notes.set(id, note);
        proof {
            let ns0 = ns;
            ns = ns.push(new_length);
            assert forall|k: int| 0 <= k <= q implies set_lengths(orig, ids@, ns, k)
                == set_lengths(orig, ids@, ns0, k) by {
                lemma_set_lengths_prefix(orig, ids@, ns0, ns, k);
            }
        }
        q += 1;
    }
    changed_lengths
}

/// Moves the element at `from` to position `to`, shifting the elements in
/// between by one.
pub fn move_element<T>(v: &mut Vec<T>, from: usize, to: usize)
    requires
        from == to || (from < old(v)@.len() && to < old(v)@.len()),
    ensures
        from == to ==> final(v)@ == old(v)@,
        from != to ==> final(v)@ == old(v)@.remove(from as int).insert(to as int, old(v)@[from as int]),
{
    if from != to {
        let x = v.remove(from);
        v.insert(to, x);
    }
}

/// Splits a note group number into its track (bits 8 to 23) and channel (bits 0 to 3).
pub fn decode_note_group(note_group: u32) -> (r: (u16, u8))
    ensures
        r.0 as int == (note_group as int / 256) % 65536,
        r.1 as int == note_group as int % 16,
{
    let track = (note_group >> 8) as u16;
    let channel = (note_group & 0xF) as u8;
    assert(track as int == (note_group as int / 256) % 65536) by (bit_vector)
        requires
            track == (note_group >> 8) as u16,
    ;
    assert(channel as int == note_group as int % 16) by (bit_vector)
        requires
            channel == (note_group & 0xF) as u8,
    ;
    (track, channel)
}

} // verus!
