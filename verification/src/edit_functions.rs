use vstd::prelude::*;
use crate::midi_types::{Note, MIDITick, SignedMIDITick};
use crate::timed_seq::{merge_spec, merge_positions, usizes_as_ints, is_sorted, merge_takes_left, lemma_merge_step, lemma_merge_sorted, lemma_merge_len, lemma_merge_multiset};
use crate::note_sequence_funcs::{sort_spec, sort_by_time, merge_notes, merge_notes_and_return_ids, extract, extract_spec, ids_valid, insert_pos, lemma_insert_pos, lemma_sort_spec};
use crate::midi_types::Timed;
use std::collections::HashSet;
use crate::actions::{ActionView, EditorAction, EditorActions, action_view};
use crate::note_action_spec::ints_as_usizes;

verus! {

broadcast use vstd::std_specs::hash::group_hash_axioms;

/// Whether `new - old`, both read as signed ticks, is a signed tick.
pub open spec fn length_diff_fits(new: MIDITick, old: MIDITick) -> bool {
    i32::MIN <= (new as i32) as int - (old as i32) as int <= i32::MAX
}

/// `new - old`, both read as signed ticks: how a length change is recorded.
pub open spec fn length_diff(new: MIDITick, old: MIDITick) -> SignedMIDITick {
    ((new as i32) as int - (old as i32) as int) as i32
}

/// `n` with another length.
pub open spec fn with_length(n: Note, length: MIDITick) -> Note {
    Note { start: n.start, length, channel: n.channel, key: n.key, velocity: n.velocity }
}

/// `n` with another start and length.
pub open spec fn with_span(n: Note, start: int, length: int) -> Note {
    Note { start: start as MIDITick, length: length as MIDITick, channel: n.channel, key: n.key, velocity: n.velocity }
}

/// The pieces cut off a note like `n`: the first starts at `start`, each is
/// `max_len` long but the last, which takes what is left of `remaining`.
pub open spec fn chop_rest(n: Note, start: int, remaining: int, max_len: int) -> Seq<Note>
    decreases remaining,
{
    if remaining <= 0 || max_len <= 0 {
        Seq::empty()
    } else {
        let l = if remaining < max_len { remaining } else { max_len };
        seq![with_span(n, start, l)] + chop_rest(n, start + l, remaining - l, max_len)
    }
}

/// The pieces that chopping makes of the rest of a note fill that rest
/// exactly, one after the other: the first starts at `start`, each next one
/// where the one before ends, the last ends at `start + remaining`; each is
/// between 1 and `max_len` ticks long and keeps the note's key, channel and
/// velocity.
pub proof fn lemma_chop_pieces(n: Note, start: int, remaining: int, max_len: int)
    requires
        0 <= start,
        0 <= remaining,
        start + remaining <= MIDITick::MAX,
        0 < max_len <= MIDITick::MAX,
    ensures
        ({
            let p = chop_rest(n, start, remaining, max_len);
            &&& (p.len() == 0 <==> remaining == 0)
            &&& forall|i: int| 0 <= i < p.len() ==> 1 <= (#[trigger] p[i]).length <= max_len
            &&& forall|i: int| 0 <= i < p.len() ==> (#[trigger] p[i]).key == n.key && p[i].channel == n.channel
                && p[i].velocity == n.velocity
            &&& p.len() > 0 ==> p[0].start == start && p.last().start + p.last().length == start + remaining
            &&& forall|i: int| 0 < i < p.len() ==> (#[trigger] p[i]).start == p[i - 1].start + p[i - 1].length
        }),
    decreases remaining,
{
    if remaining > 0 {
        let l = if remaining < max_len { remaining } else { max_len };
        lemma_chop_pieces(n, start + l, remaining - l, max_len);
        let rest = chop_rest(n, start + l, remaining - l, max_len);
        let p = chop_rest(n, start, remaining, max_len);
        assert(p == seq![with_span(n, start, l)] + rest);
        assert forall|i: int| 0 < i < p.len() implies (#[trigger] p[i]).start == p[i - 1].start + p[i - 1].length by {
            assert(p[i] == rest[i - 1]);
            if i > 1 {
                assert(p[i - 1] == rest[i - 2]);
            }
        }
        if rest.len() > 0 {
            assert(p.last() == rest.last());
        }
    }
}

/// Chopping the note at `id`: a note longer than `max_len` is cut down to
/// `max_len` and the rest of it becomes new pieces. Returns the notes, the
/// pieces and the recorded length change (if any).
pub open spec fn chop_step(notes: Seq<Note>, id: usize, max_len: MIDITick) -> (Seq<Note>, Seq<Note>, Seq<SignedMIDITick>) {
    let n = notes[id as int];
    if n.length > max_len {
        (
            notes.update(id as int, with_length(n, max_len)),
            chop_rest(n, n.start + max_len, n.length - max_len, max_len as int),
            seq![length_diff(max_len, n.length)],
        )
    } else {
        (notes, Seq::empty(), Seq::empty())
    }
}

/// Chopping the notes at the first `k` ids, one after the other.
pub open spec fn chop_fold(notes: Seq<Note>, ids: Seq<usize>, max_len: MIDITick, k: int) -> (Seq<Note>, Seq<Note>, Seq<SignedMIDITick>)
    decreases k,
{
    if k <= 0 {
        (notes, Seq::empty(), Seq::empty())
    } else {
        let p = chop_fold(notes, ids, max_len, k - 1);
        let s = chop_step(p.0, ids[k - 1], max_len);
        (s.0, p.1 + s.1, p.2 + s.2)
    }
}

/// The inputs on which chopping runs through: ids inside the track; a
/// positive length unless every selected note is empty (chopping a note into
/// empty pieces never ends); for each selected note that is cut, an end that
/// is a tick and a length change that can be recorded; and room for the
/// result.
pub open spec fn chop_ok(notes: Seq<Note>, ids: Seq<usize>, max_len: MIDITick) -> bool {
    &&& max_len == 0 ==> forall|q: int| 0 <= q < ids.len() ==> #[trigger] notes[ids[q] as int].length == 0
    &&& forall|q: int| 0 <= q < ids.len() ==> #[trigger] ids[q] < notes.len()
    &&& forall|q: int| 0 <= q < ids.len() && notes[ids[q] as int].length > max_len ==> {
        &&& (#[trigger] notes[ids[q] as int]).end_spec() <= MIDITick::MAX
        &&& length_diff_fits(max_len, notes[ids[q] as int].length)
    }
    &&& notes.len() + chop_fold(notes, ids, max_len, ids.len() as int).1.len() <= usize::MAX
}

proof fn lemma_chop_fold_shape(notes: Seq<Note>, ids: Seq<usize>, max_len: MIDITick, k: int)
    requires
        0 <= k <= ids.len(),
        forall|q: int| 0 <= q < ids.len() ==> #[trigger] ids[q] < notes.len(),
    ensures
        chop_fold(notes, ids, max_len, k).0.len() == notes.len(),
        forall|j: int| 0 <= j < notes.len() ==> {
            let c = #[trigger] chop_fold(notes, ids, max_len, k).0[j];
            c == notes[j] || (notes[j].length > max_len && c == with_length(notes[j], max_len))
        },
    decreases k,
{
    if k > 0 {
        lemma_chop_fold_shape(notes, ids, max_len, k - 1);
        let q = k - 1;
        assert(ids[q] < notes.len());
    }
}

/// Cuts every selected note longer than `max_len` down to `max_len` and
/// adds the rest of it as new notes of at most `max_len` ticks. Returns where
/// the new notes went and the recorded length changes.
pub fn chop_notes(notes: &mut Vec<Note>, note_ids: &Vec<usize>, max_len: MIDITick) -> (r: (Vec<usize>, Vec<SignedMIDITick>))
    requires
        chop_ok(old(notes)@, note_ids@, max_len),
    ensures
        ({
            let f = chop_fold(old(notes)@, note_ids@, max_len, note_ids@.len() as int);
            &&& final(notes)@ == merge_spec(f.0, sort_spec(f.1))
            &&& usizes_as_ints(r.0@) == merge_positions(f.0, sort_spec(f.1))
            &&& r.1@ == f.2
        }),
{
    let ghost orig = notes@;
    let mut changed_lengths: Vec<SignedMIDITick> = Vec::new();
    let mut new_notes: Vec<Note> = Vec::new();
    let n_ids = note_ids.len();
    for k in 0..n_ids
        invariant
            n_ids == note_ids@.len(),
            chop_ok(orig, note_ids@, max_len),
            notes@ == chop_fold(orig, note_ids@, max_len, k as int).0,
            new_notes@ == chop_fold(orig, note_ids@, max_len, k as int).1,
            changed_lengths@ == chop_fold(orig, note_ids@, max_len, k as int).2,
    {
        proof {
            lemma_chop_fold_shape(orig, note_ids@, max_len, k as int);
        }
        let id = note_ids[k];
        assert(note_ids@[k as int] < orig.len());
        let note = notes[id];
        proof {
            let c = chop_fold(orig, note_ids@, max_len, k as int).0[id as int];
            assert(c == orig[id as int] || (orig[id as int].length > max_len && c == with_length(orig[id as int], max_len)));
            assert(orig[note_ids@[k as int] as int] == orig[id as int]);
        }
        if note.length > max_len {
            let old_length = note.length;
            let new_length = max_len;
            notes.set(id, Note { start: note.start, length: new_length, channel: note.channel, key: note.key, velocity: note.velocity });
            let mut remaining_length = old_length - new_length;
            proof {
                assert(note == orig[id as int]);
                assert(length_diff_fits(max_len, orig[note_ids@[k as int] as int].length));
            }
            changed_lengths.push(
                (#[verifier::truncate] (new_length as SignedMIDITick)) - (#[verifier::truncate] (old_length as SignedMIDITick)),
            );
            let mut start_time = note.start + new_length;
            let ghost base = new_notes@;
            let ghost whole = chop_rest(note, note.start + max_len, note.length - max_len, max_len as int);
            assert(base + chop_rest(note, start_time as int, remaining_length as int, max_len as int) =~= base + whole);
            while remaining_length > 0
                invariant
                    max_len > 0,
                    start_time as int + remaining_length as int == note.end_spec(),
                    note.end_spec() <= MIDITick::MAX,
                    new_notes@ + chop_rest(note, start_time as int, remaining_length as int, max_len as int) == base + whole,
                decreases remaining_length,
            {
                let next_len = if remaining_length < max_len { remaining_length } else { max_len };
                let ghost before = new_notes@;
                new_notes.push(Note { start: start_time, length: next_len, channel: note.channel, key: note.key, velocity: note.velocity });
                proof {
                    assert(new_notes@ + chop_rest(note, start_time + next_len, remaining_length - next_len, max_len as int)
                        =~= before + chop_rest(note, start_time as int, remaining_length as int, max_len as int));
                }
                remaining_length -= next_len;
                start_time += next_len;
            }
            proof {
                assert(new_notes@ =~= base + whole);
                let p = chop_fold(orig, note_ids@, max_len, k as int);
                assert(chop_step(p.0, note_ids@[k as int], max_len).1 == whole);
                assert(notes@ =~= chop_step(p.0, note_ids@[k as int], max_len).0);
            }
        } else {
            proof {
                let p = chop_fold(orig, note_ids@, max_len, k as int);
                assert(new_notes@ =~= p.1 + chop_step(p.0, note_ids@[k as int], max_len).1);
                assert(changed_lengths@ =~= p.2 + chop_step(p.0, note_ids@[k as int], max_len).2);
            }
        }
    }
    let sorted = sort_by_time(new_notes);
    proof {
        crate::note_sequence_funcs::lemma_sort_spec(chop_fold(orig, note_ids@, max_len, n_ids as int).1);
        lemma_chop_fold_shape(orig, note_ids@, max_len, n_ids as int);
    }
    let mut old_notes: Vec<Note> = Vec::new();
    std::mem::swap(&mut old_notes, notes);
    let (merged, chopped_ids) = merge_notes_and_return_ids(old_notes, sorted);
    *notes = merged;
    (chopped_ids, changed_lengths)
}

/// The total length of the notes.
pub open spec fn total_length(s: Seq<Note>) -> int
    decreases s.len(),
{
    if s.len() == 0 {
        0
    } else {
        s[0].length + total_length(s.drop_first())
    }
}

proof fn lemma_total_concat(a: Seq<Note>, b: Seq<Note>)
    ensures
        total_length(a + b) == total_length(a) + total_length(b),
    decreases a.len(),
{
    if a.len() > 0 {
        assert((a + b).drop_first() =~= a.drop_first() + b);
        lemma_total_concat(a.drop_first(), b);
    } else {
        assert(a + b =~= b);
    }
}

proof fn lemma_total_update(s: Seq<Note>, i: int, x: Note)
    requires
        0 <= i < s.len(),
    ensures
        total_length(s.update(i, x)) == total_length(s) - s[i].length + x.length,
    decreases i,
{
    if i == 0 {
        assert(s.update(i, x).drop_first() =~= s.drop_first());
    } else {
        assert(s.update(i, x).drop_first() =~= s.drop_first().update(i - 1, x));
        lemma_total_update(s.drop_first(), i - 1, x);
    }
}

proof fn lemma_total_merge(a: Seq<Note>, b: Seq<Note>)
    ensures
        total_length(merge_spec(a, b)) == total_length(a) + total_length(b),
    decreases a.len() + b.len(),
{
    if a.len() + b.len() > 0 {
        lemma_merge_step(a, b);
        if merge_takes_left(a, b) {
            lemma_total_merge(a.drop_first(), b);
            lemma_total_concat(seq![a[0]], merge_spec(a.drop_first(), b));
            lemma_total_single(a[0]);
        } else {
            lemma_total_merge(a, b.drop_first());
            lemma_total_concat(seq![b[0]], merge_spec(a, b.drop_first()));
            lemma_total_single(b[0]);
        }
    }
}

proof fn lemma_total_single(x: Note)
    ensures
        total_length(seq![x]) == x.length,
{
    assert(seq![x].drop_first() =~= Seq::<Note>::empty());
    assert(total_length(Seq::<Note>::empty()) == 0);
}

proof fn lemma_total_sort(s: Seq<Note>)
    ensures
        total_length(sort_spec(s)) == total_length(s),
    decreases s.len(),
{
    if s.len() > 0 {
        lemma_total_sort(s.drop_last());
        let t = sort_spec(s.drop_last());
        let x = s.last();
        let p = insert_pos(t, x);
        lemma_sort_spec(s.drop_last());
        lemma_insert_pos(t, x);
        assert(t.insert(p, x) =~= t.take(p) + seq![x] + t.skip(p));
        assert(t =~= t.take(p) + t.skip(p));
        lemma_total_concat(t.take(p), t.skip(p));
        lemma_total_concat(t.take(p) + seq![x], t.skip(p));
        lemma_total_concat(t.take(p), seq![x]);
        lemma_total_single(x);
        assert(s =~= s.drop_last() + seq![x]);
        lemma_total_concat(s.drop_last(), seq![x]);
    }
}

proof fn lemma_chop_rest_total_count(n: Note, start: int, remaining: int, max_len: int)
    requires
        0 <= remaining,
        0 < max_len <= MIDITick::MAX,
    ensures
        total_length(chop_rest(n, start, remaining, max_len)) == remaining,
        chop_rest(n, start, remaining, max_len).len() == (remaining + max_len - 1) / max_len,
    decreases remaining,
{
    if remaining > 0 {
        let l = if remaining < max_len { remaining } else { max_len };
        lemma_chop_rest_total_count(n, start + l, remaining - l, max_len);
        let rest = chop_rest(n, start + l, remaining - l, max_len);
        lemma_total_concat(seq![with_span(n, start, l)], rest);
        lemma_total_single(with_span(n, start, l));
        assert(with_span(n, start, l).length == l);
        if remaining <= max_len {
            assert((remaining + max_len - 1) / max_len == 1) by (nonlinear_arith)
                requires
                    0 < remaining <= max_len,
            ;
            assert((remaining - l + max_len - 1) / max_len == 0) by (nonlinear_arith)
                requires
                    remaining == l,
                    0 < max_len,
            ;
        } else {
            assert((remaining + max_len - 1) / max_len == (remaining - max_len + max_len - 1) / max_len + 1) by (nonlinear_arith)
                requires
                    remaining > max_len > 0,
            ;
        }
    } else {
        assert((remaining + max_len - 1) / max_len == 0) by (nonlinear_arith)
            requires
                remaining == 0,
                0 < max_len,
        ;
    }
}

/// The pieces that chopping the notes at the first `k` ids cuts off, taken
/// from the notes as they were: for each note longer than `max_len`, the
/// pieces of what lies past its first `max_len` ticks.
pub open spec fn chopped_pieces(notes: Seq<Note>, ids: Seq<usize>, max_len: MIDITick, k: int) -> Seq<Note>
    decreases k,
{
    if k <= 0 {
        Seq::empty()
    } else {
        let n = notes[ids[k - 1] as int];
        chopped_pieces(notes, ids, max_len, k - 1) + if n.length > max_len {
            chop_rest(n, n.start + max_len, n.length - max_len, max_len as int)
        } else {
            Seq::empty()
        }
    }
}

/// How many pieces chopping the notes at the first `k` ids adds: a note of
/// length `l` longer than `max_len` is cut into `ceil(l / max_len)` notes,
/// all but one of them new.
pub open spec fn chopped_count(notes: Seq<Note>, ids: Seq<usize>, max_len: MIDITick, k: int) -> int
    decreases k,
{
    if k <= 0 {
        0
    } else {
        let n = notes[ids[k - 1] as int];
        chopped_count(notes, ids, max_len, k - 1) + if n.length > max_len {
            (n.length + max_len - 1) / (max_len as int) - 1
        } else {
            0
        }
    }
}

/// The note at `j` after chopping the notes at the first `k` ids: cut down
/// to `max_len` when it is one of them and longer, as it was otherwise.
pub open spec fn chopped_note(notes: Seq<Note>, ids: Seq<usize>, max_len: MIDITick, k: int, j: int) -> Note {
    if (exists|q: int| 0 <= q < k && ids[q] as int == j) && notes[j].length > max_len {
        with_length(notes[j], max_len)
    } else {
        notes[j]
    }
}

proof fn lemma_chop_fold_steps(notes: Seq<Note>, ids: Seq<usize>, max_len: MIDITick, k: int)
    requires
        chop_ok(notes, ids, max_len),
        ids_valid(ids, notes.len() as int),
        0 <= k <= ids.len(),
    ensures
        ({
            let c = chop_fold(notes, ids, max_len, k);
            &&& c.0.len() == notes.len()
            &&& forall|j: int| 0 <= j < notes.len() ==> #[trigger] c.0[j] == chopped_note(notes, ids, max_len, k, j)
            &&& c.1 == chopped_pieces(notes, ids, max_len, k)
            &&& c.1.len() == chopped_count(notes, ids, max_len, k)
            &&& total_length(c.0) + total_length(c.1) == total_length(notes)
        }),
    decreases k,
{
    if k > 0 {
        lemma_chop_fold_steps(notes, ids, max_len, k - 1);
        let p = chop_fold(notes, ids, max_len, k - 1);
        let id = ids[k - 1];
        let n = notes[id as int];
        assert(p.0[id as int] == n) by {
            if exists|q: int| 0 <= q < k - 1 && ids[q] as int == id as int {
                let q = choose|q: int| 0 <= q < k - 1 && ids[q] as int == id as int;
                assert(ids[q] < ids[k - 1]);
            }
        }
        let c = chop_fold(notes, ids, max_len, k);
        assert forall|j: int| 0 <= j < notes.len() implies #[trigger] c.0[j] == chopped_note(notes, ids, max_len, k, j) by {
            if j == id as int {
                assert(ids[k - 1] as int == j);
            } else {
                assert((exists|q: int| 0 <= q < k && ids[q] as int == j) == (exists|q: int| 0 <= q < k - 1 && ids[q] as int == j)) by {
                    if exists|q: int| 0 <= q < k && ids[q] as int == j {
                        let q = choose|q: int| 0 <= q < k && ids[q] as int == j;
                        assert(q < k - 1);
                    }
                }
            }
        }
        if n.length > max_len {
            assert(n.end_spec() <= MIDITick::MAX);
            lemma_total_update(p.0, id as int, with_length(n, max_len));
            lemma_chop_rest_total_count(n, n.start + max_len, n.length - max_len, max_len as int);
            let pieces = chop_rest(n, n.start + max_len, n.length - max_len, max_len as int);
            lemma_total_concat(p.1, pieces);
            assert((n.length - max_len + max_len - 1) / (max_len as int) == (n.length + max_len - 1) / (max_len as int) - 1)
                by (nonlinear_arith)
                requires
                    n.length > max_len > 0,
            ;
        } else {
            assert(p.1 + Seq::<Note>::empty() =~= p.1);
            assert(p.2 + Seq::<SignedMIDITick>::empty() =~= p.2);
        }
    }
}

/// What chopping keeps: the chopped track is in order by start when the
/// notes were, holds the same total length, and has `chopped_count` notes
/// more; every note not chopped is as it was, every chopped note keeps its
/// first `max_len` ticks, and the new notes are the pieces of the rest of
/// each chopped note (which [`lemma_chop_pieces`] shows fill that rest, one
/// after the other, each at most `max_len` long with the note's key,
/// channel and velocity). The result holds exactly the cut-down notes and
/// the pieces.
pub proof fn lemma_chop_law(notes: Seq<Note>, ids: Seq<usize>, max_len: MIDITick)
    requires
        chop_ok(notes, ids, max_len),
        ids_valid(ids, notes.len() as int),
        is_sorted(notes),
    ensures
        ({
            let c = chop_fold(notes, ids, max_len, ids.len() as int);
            let r = merge_spec(c.0, sort_spec(c.1));
            &&& is_sorted(r)
            &&& total_length(r) == total_length(notes)
            &&& r.len() == notes.len() + chopped_count(notes, ids, max_len, ids.len() as int)
            &&& r.to_multiset() == c.0.to_multiset().add(c.1.to_multiset())
            &&& c.0.len() == notes.len()
            &&& forall|j: int| 0 <= j < notes.len() ==> #[trigger] c.0[j] == chopped_note(notes, ids, max_len, ids.len() as int, j)
            &&& forall|j: int| 0 <= j < notes.len() ==> if among(ids, ids.len() as int, j) && notes[j].length > max_len {
                &&& (#[trigger] c.0[j]).start == notes[j].start
                &&& c.0[j].length == max_len
                &&& c.0[j].key == notes[j].key
                &&& c.0[j].channel == notes[j].channel
                &&& c.0[j].velocity == notes[j].velocity
            } else {
                c.0[j] == notes[j]
            }
            &&& c.1 == chopped_pieces(notes, ids, max_len, ids.len() as int)
        }),
{
    let k = ids.len() as int;
    lemma_chop_fold_steps(notes, ids, max_len, k);
    let c = chop_fold(notes, ids, max_len, k);
    assert(is_sorted(c.0)) by {
        assert forall|i: int, j: int| 0 <= i <= j < c.0.len() implies c.0[i].time() <= c.0[j].time() by {
            assert(c.0[i] == chopped_note(notes, ids, max_len, k, i));
            assert(c.0[j] == chopped_note(notes, ids, max_len, k, j));
            assert(notes[i].time() <= notes[j].time());
        }
    }
    lemma_sort_spec(c.1);
    lemma_merge_sorted(c.0, sort_spec(c.1));
    lemma_total_merge(c.0, sort_spec(c.1));
    lemma_total_sort(c.1);
    lemma_merge_len(c.0, sort_spec(c.1));
    lemma_merge_multiset(c.0, sort_spec(c.1));
}

/// Slicing the note at `id` at `tick`: a note that sounds across `tick`
/// ends there and a new note of the same kind takes the part after it.
/// Returns the notes, the new note, the recorded length change and the id.
pub open spec fn slice_step(notes: Seq<Note>, id: usize, tick: MIDITick) -> (Seq<Note>, Seq<Note>, Seq<SignedMIDITick>, Seq<usize>) {
    let n = notes[id as int];
    if n.start < tick && n.end_spec() > tick {
        (
            notes.update(id as int, with_length(n, (tick - n.start) as MIDITick)),
            seq![with_span(n, tick as int, n.end_spec() - tick)],
            seq![length_diff((tick - n.start) as MIDITick, n.length)],
            seq![id],
        )
    } else {
        (notes, Seq::empty(), Seq::empty(), Seq::empty())
    }
}

/// Slicing the notes at the first `k` ids, one after the other.
pub open spec fn slice_fold(notes: Seq<Note>, ids: Seq<usize>, tick: MIDITick, k: int) -> (Seq<Note>, Seq<Note>, Seq<SignedMIDITick>, Seq<usize>)
    decreases k,
{
    if k <= 0 {
        (notes, Seq::empty(), Seq::empty(), Seq::empty())
    } else {
        let p = slice_fold(notes, ids, tick, k - 1);
        let s = slice_step(p.0, ids[k - 1], tick);
        (s.0, p.1 + s.1, p.2 + s.2, p.3 + s.3)
    }
}

/// The inputs on which slicing runs through: ids inside the track, notes
/// whose end is a tick and whose length change can be recorded, and room
/// for the result.
pub open spec fn slice_ok(notes: Seq<Note>, ids: Seq<usize>, tick: MIDITick) -> bool {
    &&& forall|q: int| 0 <= q < ids.len() ==> #[trigger] ids[q] < notes.len()
    &&& forall|q: int| 0 <= q < ids.len() ==> #[trigger] notes[ids[q] as int].end_spec() <= MIDITick::MAX
    &&& forall|q: int|
        0 <= q < ids.len() && notes[ids[q] as int].start < tick && notes[ids[q] as int].end_spec() > tick
            ==> length_diff_fits((tick - notes[ids[q] as int].start) as MIDITick, #[trigger] notes[ids[q] as int].length)
    &&& notes.len() + slice_fold(notes, ids, tick, ids.len() as int).1.len() <= usize::MAX
}

proof fn lemma_slice_fold_shape(notes: Seq<Note>, ids: Seq<usize>, tick: MIDITick, k: int)
    requires
        0 <= k <= ids.len(),
        forall|q: int| 0 <= q < ids.len() ==> #[trigger] ids[q] < notes.len(),
    ensures
        slice_fold(notes, ids, tick, k).0.len() == notes.len(),
        forall|j: int| 0 <= j < notes.len() ==> {
            let c = #[trigger] slice_fold(notes, ids, tick, k).0[j];
            c == notes[j] || (notes[j].start < tick && notes[j].end_spec() > tick && c == with_length(
                notes[j],
                (tick - notes[j].start) as MIDITick,
            ))
        },
    decreases k,
{
    if k > 0 {
        lemma_slice_fold_shape(notes, ids, tick, k - 1);
        let q = k - 1;
        assert(ids[q] < notes.len());
    }
}

/// Whether `j` is among the first `k` ids.
pub open spec fn among(ids: Seq<usize>, k: int, j: int) -> bool {
    exists|p: int| 0 <= p < k && #[trigger] ids[p] as int == j
}

proof fn lemma_slice_fold_law(notes: Seq<Note>, ids: Seq<usize>, tick: MIDITick, k: int)
    requires
        0 <= k <= ids.len(),
        forall|q: int| 0 <= q < ids.len() ==> #[trigger] ids[q] < notes.len(),
        forall|q: int| 0 <= q < ids.len() ==> #[trigger] notes[ids[q] as int].end_spec() <= MIDITick::MAX,
    ensures
        ({
            let c = slice_fold(notes, ids, tick, k);
            &&& c.0.len() == notes.len()
            &&& c.1.len() == c.3.len()
            &&& c.2.len() == c.3.len()
            &&& forall|j: int| 0 <= j < notes.len() ==> if among(ids, k, j) && notes[j].start < tick
                && notes[j].end_spec() > tick {
                &&& (#[trigger] c.0[j]).start == notes[j].start
                &&& c.0[j].end_spec() == tick
                &&& c.0[j].key == notes[j].key
                &&& c.0[j].channel == notes[j].channel
                &&& c.0[j].velocity == notes[j].velocity
            } else {
                c.0[j] == notes[j]
            }
            &&& forall|q: int| 0 <= q < c.3.len() ==> {
                let id = #[trigger] c.3[q] as int;
                &&& 0 <= id < notes.len()
                &&& among(ids, k, id)
                &&& notes[id].start < tick < notes[id].end_spec()
                &&& c.1[q].start == tick
                &&& c.1[q].end_spec() == notes[id].end_spec()
                &&& c.1[q].key == notes[id].key
                &&& c.1[q].channel == notes[id].channel
                &&& c.1[q].velocity == notes[id].velocity
            }
            &&& forall|p: int| 0 <= p < k && notes[ids[p] as int].start < tick && notes[ids[p] as int].end_spec()
                > tick ==> exists|q: int| 0 <= q < c.3.len() && #[trigger] c.3[q] == #[trigger] ids[p]
        }),
    decreases k,
{
    if k > 0 {
        lemma_slice_fold_law(notes, ids, tick, k - 1);
        let p = slice_fold(notes, ids, tick, k - 1);
        let c = slice_fold(notes, ids, tick, k);
        let id = ids[k - 1];
        let n = notes[id as int];
        assert(ids[k - 1] < notes.len());
        assert(n.end_spec() <= MIDITick::MAX);
        let was = among(ids, k - 1, id as int);
        let cuts = n.start < tick && n.end_spec() > tick;
        if was && cuts {
            assert(p.0[id as int].end_spec() == tick);
            assert(c == (p.0, p.1 + Seq::<Note>::empty(), p.2 + Seq::<SignedMIDITick>::empty(), p.3 + Seq::<usize>::empty()));
            assert(c.1 =~= p.1);
            assert(c.2 =~= p.2);
            assert(c.3 =~= p.3);
        } else if cuts {
            assert(p.0[id as int] == n);
            assert(c.3 =~= p.3.push(id));
            assert(c.1 =~= p.1.push(with_span(n, tick as int, n.end_spec() - tick)));
        } else {
            assert(p.0[id as int] == n || (was && cuts));
            assert(c.1 =~= p.1);
            assert(c.2 =~= p.2);
            assert(c.3 =~= p.3);
        }
        assert forall|j: int| 0 <= j < notes.len() implies among(ids, k, j) == (among(ids, k - 1, j) || j == id as int) by {
            if among(ids, k, j) {
                let w = choose|w: int| 0 <= w < k && #[trigger] ids[w] as int == j;
                if w < k - 1 {
                    assert(among(ids, k - 1, j));
                }
            }
            if among(ids, k - 1, j) {
                let w = choose|w: int| 0 <= w < k - 1 && #[trigger] ids[w] as int == j;
                assert(ids[w] as int == j);
            }
            if j == id as int {
                assert(ids[k - 1] as int == j);
            }
        }
        assert forall|q: int| 0 <= q < c.3.len() implies {
            let id2 = #[trigger] c.3[q] as int;
            &&& 0 <= id2 < notes.len()
            &&& among(ids, k, id2)
            &&& notes[id2].start < tick < notes[id2].end_spec()
            &&& c.1[q].start == tick
            &&& c.1[q].end_spec() == notes[id2].end_spec()
            &&& c.1[q].key == notes[id2].key
            &&& c.1[q].channel == notes[id2].channel
            &&& c.1[q].velocity == notes[id2].velocity
        } by {
            if q < p.3.len() {
                assert(c.3[q] == p.3[q]);
                assert(c.1[q] == p.1[q]);
            }
        }
        assert forall|w: int| 0 <= w < k && notes[ids[w] as int].start < tick && notes[ids[w] as int].end_spec()
            > tick implies exists|q: int| 0 <= q < c.3.len() && #[trigger] c.3[q] == #[trigger] ids[w] by {
            if w < k - 1 {
                let q = choose|q: int| 0 <= q < p.3.len() && #[trigger] p.3[q] == #[trigger] ids[w];
                assert(c.3[q] == p.3[q]);
            } else if was {
                let v = choose|v: int| 0 <= v < k - 1 && #[trigger] ids[v] as int == id as int;
                let q = choose|q: int| 0 <= q < p.3.len() && #[trigger] p.3[q] == #[trigger] ids[v];
                assert(c.3[q] == p.3[q]);
            } else {
                assert(c.3[p.3.len() as int] == id);
            }
        }
    }
}

/// Slicing at a tick cuts in two exactly the selected notes that sound
/// across it and leaves every other note as it was: the part before the
/// tick stays in place (same start, key, channel and velocity, now ending
/// at the tick), and the part after it becomes a new note that starts at
/// the tick, ends where the note ended and keeps its key, channel and
/// velocity. Each cut note is reported once with its new part.
pub proof fn lemma_slice_law(notes: Seq<Note>, ids: Seq<usize>, tick: MIDITick)
    requires
        slice_ok(notes, ids, tick),
    ensures
        ({
            let c = slice_fold(notes, ids, tick, ids.len() as int);
            let (kept, pieces, cut_ids) = (c.0, c.1, c.3);
            &&& kept.len() == notes.len()
            &&& pieces.len() == cut_ids.len()
            &&& forall|j: int| 0 <= j < notes.len() ==> if among(ids, ids.len() as int, j) && notes[j].start < tick
                && notes[j].end_spec() > tick {
                &&& (#[trigger] kept[j]).start == notes[j].start
                &&& kept[j].end_spec() == tick
                &&& kept[j].key == notes[j].key
                &&& kept[j].channel == notes[j].channel
                &&& kept[j].velocity == notes[j].velocity
            } else {
                kept[j] == notes[j]
            }
            &&& forall|q: int| 0 <= q < cut_ids.len() ==> {
                let id = #[trigger] cut_ids[q] as int;
                &&& 0 <= id < notes.len()
                &&& among(ids, ids.len() as int, id)
                &&& notes[id].start < tick < notes[id].end_spec()
                &&& pieces[q].start == tick
                &&& pieces[q].end_spec() == notes[id].end_spec()
                &&& pieces[q].key == notes[id].key
                &&& pieces[q].channel == notes[id].channel
                &&& pieces[q].velocity == notes[id].velocity
            }
            &&& forall|p: int| 0 <= p < ids.len() && notes[ids[p] as int].start < tick && notes[ids[p] as int].end_spec()
                > tick ==> exists|q: int| 0 <= q < cut_ids.len() && #[trigger] cut_ids[q] == #[trigger] ids[p]
        }),
{
    lemma_slice_fold_law(notes, ids, tick, ids.len() as int);
}

/// Cuts every selected note that sounds across `slice_tick` in two there.
/// Returns where the new notes went, the ids of the cut notes and their
/// recorded length changes.
pub fn slice_notes_at_tick(notes: &mut Vec<Note>, note_ids: Vec<usize>, slice_tick: MIDITick) -> (r: (Vec<usize>, Vec<usize>, Vec<SignedMIDITick>))
    requires
        slice_ok(old(notes)@, note_ids@, slice_tick),
    ensures
        ({
            let f = slice_fold(old(notes)@, note_ids@, slice_tick, note_ids@.len() as int);
            &&& final(notes)@ == merge_spec(f.0, f.1)
            &&& usizes_as_ints(r.0@) == merge_positions(f.0, f.1)
            &&& r.1@ == f.3
            &&& r.2@ == f.2
        }),
{
    let ghost orig = notes@;
    let mut changed_lengths: Vec<SignedMIDITick> = Vec::new();
    let mut new_notes: Vec<Note> = Vec::new();
    let mut affected_ids: Vec<usize> = Vec::new();
    let n_ids = note_ids.len();
    for k in 0..n_ids
        invariant
            n_ids == note_ids@.len(),
            slice_ok(orig, note_ids@, slice_tick),
            notes@ == slice_fold(orig, note_ids@, slice_tick, k as int).0,
            new_notes@ == slice_fold(orig, note_ids@, slice_tick, k as int).1,
            changed_lengths@ == slice_fold(orig, note_ids@, slice_tick, k as int).2,
            affected_ids@ == slice_fold(orig, note_ids@, slice_tick, k as int).3,
    {
        proof {
            lemma_slice_fold_shape(orig, note_ids@, slice_tick, k as int);
        }
        let id = note_ids[k];
        assert(note_ids@[k as int] < orig.len());
        let note = notes[id];
        proof {
            let c = slice_fold(orig, note_ids@, slice_tick, k as int).0[id as int];
            assert(c == orig[id as int] || (orig[id as int].start < slice_tick && orig[id as int].end_spec() > slice_tick
                && c == with_length(orig[id as int], (slice_tick - orig[id as int].start) as MIDITick)));
            assert(orig[note_ids@[k as int] as int].end_spec() <= MIDITick::MAX);
        }
        let start = note.start;
        let end = note.end();
        if start < slice_tick && end > slice_tick {
            let left_len = slice_tick - start;
            let right_len = end - slice_tick;
            let old_length = note.length;
            proof {
                assert(note == orig[id as int]);
                assert(length_diff_fits((slice_tick - orig[note_ids@[k as int] as int].start) as MIDITick,
                    orig[note_ids@[k as int] as int].length));
            }
            notes.set(id, Note { start: note.start, length: left_len, channel: note.channel, key: note.key, velocity: note.velocity });
            changed_lengths.push(
                (#[verifier::truncate] (left_len as SignedMIDITick)) - (#[verifier::truncate] (old_length as SignedMIDITick)),
            );
            new_notes.push(Note { start: slice_tick, length: right_len, channel: note.channel, key: note.key, velocity: note.velocity });
            affected_ids.push(id);
            proof {
                let p = slice_fold(orig, note_ids@, slice_tick, k as int);
                assert(notes@ =~= slice_step(p.0, note_ids@[k as int], slice_tick).0);
            }
        } else {
            proof {
                let p = slice_fold(orig, note_ids@, slice_tick, k as int);
                assert(new_notes@ =~= p.1 + slice_step(p.0, note_ids@[k as int], slice_tick).1);
                assert(changed_lengths@ =~= p.2 + slice_step(p.0, note_ids@[k as int], slice_tick).2);
                assert(affected_ids@ =~= p.3 + slice_step(p.0, note_ids@[k as int], slice_tick).3);
            }
        }
    }
    proof {
        lemma_slice_fold_shape(orig, note_ids@, slice_tick, n_ids as int);
    }
    let mut old_notes: Vec<Note> = Vec::new();
    std::mem::swap(&mut old_notes, notes);
    let (merged, new_ids) = merge_notes_and_return_ids(old_notes, new_notes);
    *notes = merged;
    (new_ids, affected_ids, changed_lengths)
}

/// Where glueing files a note: by key, or by channel and key when channels
/// are kept apart.
pub open spec fn glue_slot(n: Note, separate_channels: bool) -> int {
    if separate_channels {
        n.channel as int * 128 + n.key as int
    } else {
        n.key as int
    }
}

/// How many slots glueing uses.
pub open spec fn glue_table_size(separate_channels: bool) -> int {
    if separate_channels {
        2048int
    } else {
        128int
    }
}

/// What glueing has built so far: per slot the end and index of the last
/// kept note, the kept notes with their ids and length changes, and the
/// notes that were glued onto others, with their ids.
pub struct GlueState {
    pub table: Seq<Option<(MIDITick, usize)>>,
    pub kept: Seq<Note>,
    pub kept_ids: Seq<usize>,
    pub changes: Seq<SignedMIDITick>,
    pub removed: Seq<Note>,
    pub removed_ids: Seq<usize>,
}

pub open spec fn glue_start(separate_channels: bool) -> GlueState {
    GlueState {
        table: Seq::new(glue_table_size(separate_channels) as nat, |i: int| None),
        kept: Seq::empty(),
        kept_ids: Seq::empty(),
        changes: Seq::empty(),
        removed: Seq::empty(),
        removed_ids: Seq::empty(),
    }
}

/// `note` becomes a kept note of its own.
pub open spec fn glue_keep(st: GlueState, id: usize, note: Note, slot: int) -> GlueState {
    GlueState {
        table: st.table.update(slot, Some((note.end_spec() as MIDITick, st.kept.len() as usize))),
        kept: st.kept.push(note),
        kept_ids: st.kept_ids.push(id),
        changes: st.changes.push(0),
        removed: st.removed,
        removed_ids: st.removed_ids,
    }
}

/// One note of glueing: a note that starts no later than `threshold` after
/// the end of the last kept note of its slot is glued onto that note, which
/// then lasts to the later of both ends; any other note is kept. `None` where
/// the step cannot be carried out: a slot outside the table, an end or
/// a sum past the largest tick, or a length change that is no signed tick.
pub open spec fn glue_step(st: GlueState, id: usize, note: Note, threshold: MIDITick, separate_channels: bool) -> Option<GlueState> {
    let slot = glue_slot(note, separate_channels);
    if !(0 <= slot < st.table.len()) || note.end_spec() > MIDITick::MAX {
        None
    } else {
        match st.table[slot] {
            None => Some(glue_keep(st, id, note, slot)),
            Some((last_end, ki)) => {
                if last_end + threshold > MIDITick::MAX || ki >= st.kept.len() {
                    None
                } else if note.start <= last_end + threshold {
                    let last = st.kept[ki as int];
                    let new_end: int = if last_end >= note.end_spec() { last_end as int } else { note.end_spec() };
                    let new_length = new_end - last.start;
                    if new_length < 0 || !length_diff_fits(new_length as MIDITick, last.length) {
                        None
                    } else {
                        Some(GlueState {
                            table: st.table.update(slot, Some((new_end as MIDITick, ki))),
                            kept: st.kept.update(ki as int, with_length(last, new_length as MIDITick)),
                            kept_ids: st.kept_ids,
                            changes: st.changes.update(ki as int, length_diff(new_length as MIDITick, last.length)),
                            removed: st.removed.push(note),
                            removed_ids: st.removed_ids.push(id),
                        })
                    }
                } else {
                    Some(glue_keep(st, id, note, slot))
                }
            },
        }
    }
}

/// Glueing the first `k` notes of `to_glue`, the `q`th of which has id `ids[q]`.
pub open spec fn glue_fold(to_glue: Seq<Note>, ids: Seq<usize>, threshold: MIDITick, separate_channels: bool, k: int) -> Option<GlueState>
    decreases k,
{
    if k <= 0 {
        Some(glue_start(separate_channels))
    } else {
        match glue_fold(to_glue, ids, threshold, separate_channels, k - 1) {
            Some(st) => glue_step(st, ids[k - 1], to_glue[k - 1], threshold, separate_channels),
            None => None,
        }
    }
}

/// How many notes glueing goes through: as many as there are both ids and
/// extracted notes.
pub open spec fn glue_count(notes: Seq<Note>, ids: Seq<usize>) -> int {
    let n = extract_spec(notes, ids).0.len();
    if ids.len() < n { ids.len() as int } else { n as int }
}

/// The result of glueing the notes at `ids`.
pub open spec fn glue_spec(notes: Seq<Note>, ids: Seq<usize>, threshold: MIDITick, separate_channels: bool) -> Option<GlueState> {
    glue_fold(extract_spec(notes, ids).0, ids, threshold, separate_channels, glue_count(notes, ids))
}

/// Bookkeeping that glueing keeps: every table entry points at a kept note
/// that starts no later than the entry's end, the parallel lists stay
/// parallel, and each note goes to one side.
pub open spec fn glue_state_wf(st: GlueState, separate_channels: bool, k: int) -> bool {
    &&& st.table.len() == glue_table_size(separate_channels)
    &&& st.kept.len() == st.kept_ids.len()
    &&& st.kept.len() == st.changes.len()
    &&& st.removed.len() == st.removed_ids.len()
    &&& st.kept.len() + st.removed.len() == k
    &&& forall|i: int| 0 <= i < st.table.len() && (#[trigger] st.table[i]) is Some ==> entry_ok(st, st.table[i].unwrap())
}

/// A table entry points at a kept note that starts no later than its end.
pub open spec fn entry_ok(st: GlueState, entry: (MIDITick, usize)) -> bool {
    entry.1 < st.kept.len() && st.kept[entry.1 as int].start <= entry.0
}

proof fn lemma_glue_step_wf(st: GlueState, id: usize, note: Note, threshold: MIDITick, separate_channels: bool, k: int)
    requires
        glue_state_wf(st, separate_channels, k),
        k < usize::MAX,
        glue_step(st, id, note, threshold, separate_channels) is Some,
    ensures
        glue_state_wf(glue_step(st, id, note, threshold, separate_channels)->0, separate_channels, k + 1),
{
    let nx = glue_step(st, id, note, threshold, separate_channels)->0;
    let slot = glue_slot(note, separate_channels);
    match st.table[slot] {
        None => {
            assert(nx == glue_keep(st, id, note, slot));
            assert(st.kept.len() as usize == st.kept.len());
            assert forall|i: int| 0 <= i < nx.table.len() && (#[trigger] nx.table[i]) is Some implies entry_ok(nx, nx.table[i].unwrap()) by {
                if i != slot {
                    assert(st.table[i] is Some);
                    assert(entry_ok(st, st.table[i].unwrap()));
                }
            }
        },
        Some((last_end, ki)) => {
            assert(st.table[slot] is Some);
            assert(entry_ok(st, st.table[slot].unwrap()));
            if note.start <= last_end + threshold {
                assert forall|i: int| 0 <= i < nx.table.len() && (#[trigger] nx.table[i]) is Some implies entry_ok(nx, nx.table[i].unwrap()) by {
                    if i != slot {
                        assert(st.table[i] is Some);
                        assert(entry_ok(st, st.table[i].unwrap()));
                    }
                }
            } else {
                assert(nx == glue_keep(st, id, note, slot));
                assert(st.kept.len() as usize == st.kept.len());
                assert forall|i: int| 0 <= i < nx.table.len() && (#[trigger] nx.table[i]) is Some implies entry_ok(nx, nx.table[i].unwrap()) by {
                    if i != slot {
                        assert(st.table[i] is Some);
                        assert(entry_ok(st, st.table[i].unwrap()));
                    }
                }
            }
        },
    }
}

proof fn lemma_glue_fold_wf(to_glue: Seq<Note>, ids: Seq<usize>, threshold: MIDITick, separate_channels: bool, k: int)
    requires
        0 <= k <= usize::MAX,
        glue_fold(to_glue, ids, threshold, separate_channels, k) is Some,
    ensures
        glue_state_wf(glue_fold(to_glue, ids, threshold, separate_channels, k)->0, separate_channels, k),
    decreases k,
{
    if k > 0 {
        lemma_glue_fold_wf(to_glue, ids, threshold, separate_channels, k - 1);
        let st = glue_fold(to_glue, ids, threshold, separate_channels, k - 1)->0;
        lemma_glue_step_wf(st, ids[k - 1], to_glue[k - 1], threshold, separate_channels, k - 1);
    } else {
        let st = glue_start(separate_channels);
        assert forall|i: int| 0 <= i < st.table.len() implies !((#[trigger] st.table[i]) is Some) by {}
    }
}

/// Glues each selected note onto the last kept note of the same key (and
/// channel, when `separate_channels`) if it starts within `glue_threshold`
/// ticks of that note's end. Returns the ids and notes that were glued away,
/// where the kept notes went and their recorded length changes.
pub fn glue_notes(notes: &mut Vec<Note>, note_ids: Vec<usize>, glue_threshold: MIDITick, separate_channels: bool) -> (r: (
    Vec<usize>,
    Vec<Note>,
    Vec<usize>,
    Vec<SignedMIDITick>,
))
    requires
        glue_spec(old(notes)@, note_ids@, glue_threshold, separate_channels) is Some,
    ensures
        ({
            let st = glue_spec(old(notes)@, note_ids@, glue_threshold, separate_channels)->0;
            let rest = extract_spec(old(notes)@, note_ids@).1;
            &&& final(notes)@ == merge_spec(rest, st.kept)
            &&& r.0@ == st.removed_ids
            &&& r.1@ == st.removed
            &&& usizes_as_ints(r.2@) == merge_positions(rest, st.kept)
            &&& r.3@ == st.changes
        }),
{
    let ghost orig = notes@;
    let n_all = notes.len();
    let mut old_notes: Vec<Note> = Vec::new();
    std::mem::swap(&mut old_notes, notes);
    let (notes_to_glue, remaining_notes) = extract(old_notes, &note_ids);
    proof {
        crate::note_sequence_funcs::lemma_extract_from_multiset(orig, note_ids@, 0, 0);
    }
    let table_size: usize = if separate_channels { 16 * 128 } else { 128 };
    let mut table: Vec<Option<(MIDITick, usize)>> = Vec::with_capacity(table_size);
    for i in 0..table_size
        invariant
            table@ == Seq::new(i as nat, |j: int| None::<(MIDITick, usize)>),
    {
        table.push(None);
        assert(table@ =~= Seq::new((i + 1) as nat, |j: int| None::<(MIDITick, usize)>));
    }
    let mut kept_notes: Vec<Note> = Vec::new();
    let mut kept_old_ids: Vec<usize> = Vec::new();
    let mut kept_length_changes: Vec<SignedMIDITick> = Vec::new();
    let mut removed_notes: Vec<Note> = Vec::new();
    let mut removed_old_ids: Vec<usize> = Vec::new();
    let count = if note_ids.len() < notes_to_glue.len() { note_ids.len() } else { notes_to_glue.len() };
    let ghost g = notes_to_glue@;
    for k in 0..count
        invariant
            count == glue_count(orig, note_ids@),
            count <= note_ids@.len(),
            count <= g.len(),
            g == extract_spec(orig, note_ids@).0,
            notes_to_glue@ == g,
            glue_fold(g, note_ids@, glue_threshold, separate_channels, count as int) is Some,
            glue_fold(g, note_ids@, glue_threshold, separate_channels, k as int) == Some(GlueState {
                table: table@,
                kept: kept_notes@,
                kept_ids: kept_old_ids@,
                changes: kept_length_changes@,
                removed: removed_notes@,
                removed_ids: removed_old_ids@,
            }),
    {
        proof {
            lemma_glue_fold_some_prefix(g, note_ids@, glue_threshold, separate_channels, (k + 1) as int, count as int);
            lemma_glue_fold_wf(g, note_ids@, glue_threshold, separate_channels, k as int);
        }
        let ghost st = glue_fold(g, note_ids@, glue_threshold, separate_channels, k as int)->0;
        let orig_id = note_ids[k];
        let note = notes_to_glue[k];
        let key = note.key as usize;
        let ch_index: usize = if separate_channels { (note.channel as usize) * 128 } else { 0 };
        let table_idx = ch_index + key;
        let note_start = note.start;
        let note_end = note.end();
        match table[table_idx] {
            None => {
                let kept_index = kept_notes.len();
                table.set(table_idx, Some((note_end, kept_index)));
                kept_old_ids.push(orig_id);
                kept_length_changes.push(0);
                kept_notes.push(note);
            },
            Some((last_end, kept_index)) => {
                if note_start <= last_end + glue_threshold {
                    let last_note = kept_notes[kept_index];
                    let old_length = last_note.length;
                    let last_start = last_note.start;
                    let new_end = if last_end >= note_end { last_end } else { note_end };
                    let new_length = new_end - last_start;
                    kept_notes.set(kept_index, Note {
                        start: last_note.start,
                        length: new_length,
                        channel: last_note.channel,
                        key: last_note.key,
                        velocity: last_note.velocity,
                    });
                    table.set(table_idx, Some((new_end, kept_index)));
                    kept_length_changes.set(
                        kept_index,
                        (#[verifier::truncate] (new_length as SignedMIDITick)) - (#[verifier::truncate] (old_length as SignedMIDITick)),
                    );
                    removed_old_ids.push(orig_id);
                    removed_notes.push(note);
                } else {
                    let kept_index = kept_notes.len();
                    table.set(table_idx, Some((note_end, kept_index)));
                    kept_old_ids.push(orig_id);
                    kept_length_changes.push(0);
                    kept_notes.push(note);
                }
            },
        }
    }
    proof {
        lemma_glue_fold_wf(g, note_ids@, glue_threshold, separate_channels, count as int);
        assert(g.len() + remaining_notes@.len() == n_all);
    }
    let (merged, new_ids) = merge_notes_and_return_ids(remaining_notes, kept_notes);
    *notes = merged;
    (removed_old_ids, removed_notes, new_ids, kept_length_changes)
}

proof fn lemma_glue_fold_some_prefix(to_glue: Seq<Note>, ids: Seq<usize>, threshold: MIDITick, separate_channels: bool, k: int, n: int)
    requires
        0 <= k <= n,
        glue_fold(to_glue, ids, threshold, separate_channels, n) is Some,
    ensures
        glue_fold(to_glue, ids, threshold, separate_channels, k) is Some,
    decreases n - k,
{
    if k < n {
        lemma_glue_fold_some_prefix(to_glue, ids, threshold, separate_channels, k + 1, n);
    }
}

/// `a` sits where `b` does: same start, key, channel and velocity.
pub open spec fn same_place(a: Note, b: Note) -> bool {
    a.start == b.start && a.key == b.key && a.channel == b.channel && a.velocity == b.velocity
}

/// The kept note `i` is one of the first `k` notes to glue, at the same
/// place, lasting at least as long, and ending either where that note ended
/// or where a note glued away in its slot ended.
pub open spec fn kept_from(st: GlueState, g: Seq<Note>, ids: Seq<usize>, k: int, separate_channels: bool, i: int) -> bool {
    exists|q: int|
        0 <= q < k && st.kept_ids[i] == #[trigger] ids[q] && same_place(st.kept[i], g[q]) && st.kept[i].end_spec()
            >= g[q].end_spec() && (st.kept[i].end_spec() == g[q].end_spec() || exists|r: int|
            0 <= r < st.removed.len() && (#[trigger] st.removed[r]).end_spec() == st.kept[i].end_spec()
                && glue_slot(st.removed[r], separate_channels) == glue_slot(st.kept[i], separate_channels))
}

/// The note glued away at `r` is one of the first `k` notes to glue, as it
/// was.
pub open spec fn removed_from(st: GlueState, g: Seq<Note>, ids: Seq<usize>, k: int, r: int) -> bool {
    exists|q: int| 0 <= q < k && st.removed_ids[r] == #[trigger] ids[q] && st.removed[r] == g[q]
}

/// The note glued away at `r` lies on a kept note of its slot: it starts
/// no later than `threshold` after that note's end and ends no later than
/// it.
pub open spec fn covered(st: GlueState, separate_channels: bool, threshold: MIDITick, r: int) -> bool {
    exists|i: int|
        0 <= i < st.kept.len() && glue_slot(#[trigger] st.kept[i], separate_channels) == glue_slot(
            st.removed[r],
            separate_channels,
        ) && st.removed[r].end_spec() <= st.kept[i].end_spec() && st.removed[r].start <= st.kept[i].end_spec()
            + threshold
}

/// Kept notes of one slot, in the order they were kept, are more than
/// `threshold` apart: each starts later than `threshold` after the end of
/// any kept before it.
pub open spec fn kept_apart(st: GlueState, separate_channels: bool, threshold: MIDITick) -> bool {
    forall|i: int, j: int|
        0 <= i < j < st.kept.len() && glue_slot(#[trigger] st.kept[i], separate_channels) == glue_slot(
            #[trigger] st.kept[j],
            separate_channels,
        ) ==> st.kept[j].start > st.kept[i].end_spec() + threshold
}

/// What glueing keeps true of its table and its results.
pub open spec fn glue_ends_inv(st: GlueState, g: Seq<Note>, ids: Seq<usize>, k: int, separate_channels: bool, threshold: MIDITick) -> bool {
    &&& forall|sl: int| 0 <= sl < st.table.len() && (#[trigger] st.table[sl]) is Some ==> {
        let (e, ki) = st.table[sl].unwrap();
        &&& ki < st.kept.len()
        &&& st.kept[ki as int].end_spec() == e
        &&& glue_slot(st.kept[ki as int], separate_channels) == sl
        &&& forall|i: int| 0 <= i < st.kept.len() && glue_slot(#[trigger] st.kept[i], separate_channels) == sl ==> i <= ki
    }
    &&& forall|sl: int| 0 <= sl < st.table.len() && (#[trigger] st.table[sl]) is None ==> forall|i: int|
        0 <= i < st.kept.len() ==> glue_slot(#[trigger] st.kept[i], separate_channels) != sl
    &&& forall|i: int| 0 <= i < st.kept.len() ==> 0 <= glue_slot(#[trigger] st.kept[i], separate_channels) < st.table.len()
    &&& forall|i: int| 0 <= i < st.kept.len() ==> #[trigger] kept_from(st, g, ids, k, separate_channels, i)
    &&& forall|r: int| 0 <= r < st.removed.len() ==> #[trigger] removed_from(st, g, ids, k, r)
    &&& forall|r: int| 0 <= r < st.removed.len() ==> #[trigger] covered(st, separate_channels, threshold, r)
    &&& is_sorted(g.take(k)) ==> kept_apart(st, separate_channels, threshold)
}

proof fn lemma_glue_step_ends(
    st: GlueState,
    g: Seq<Note>,
    ids: Seq<usize>,
    threshold: MIDITick,
    separate_channels: bool,
    k: int,
)
    requires
        1 <= k <= ids.len(),
        k <= g.len(),
        k <= usize::MAX,
        glue_state_wf(st, separate_channels, k - 1),
        glue_ends_inv(st, g, ids, k - 1, separate_channels, threshold),
        glue_step(st, ids[k - 1], g[k - 1], threshold, separate_channels) is Some,
    ensures
        glue_ends_inv(glue_step(st, ids[k - 1], g[k - 1], threshold, separate_channels)->0, g, ids, k, separate_channels, threshold),
{
    let id = ids[k - 1];
    let note = g[k - 1];
    let nx = glue_step(st, id, note, threshold, separate_channels)->0;
    let slot = glue_slot(note, separate_channels);
    assert forall|i: int| 0 <= i < st.kept.len() implies #[trigger] kept_from(st, g, ids, k, separate_channels, i) by {
        assert(kept_from(st, g, ids, k - 1, separate_channels, i));
        let q = choose|q: int|
            0 <= q < k - 1 && st.kept_ids[i] == #[trigger] ids[q] && same_place(st.kept[i], g[q]) && st.kept[i].end_spec()
                >= g[q].end_spec() && (st.kept[i].end_spec() == g[q].end_spec() || exists|r: int|
                0 <= r < st.removed.len() && (#[trigger] st.removed[r]).end_spec() == st.kept[i].end_spec()
                    && glue_slot(st.removed[r], separate_channels) == glue_slot(st.kept[i], separate_channels));
        assert(0 <= q < k && st.kept_ids[i] == ids[q]);
    }
    assert forall|r: int| 0 <= r < st.removed.len() implies #[trigger] removed_from(st, g, ids, k, r) by {
        assert(removed_from(st, g, ids, k - 1, r));
        let q = choose|q: int| 0 <= q < k - 1 && st.removed_ids[r] == #[trigger] ids[q] && st.removed[r] == g[q];
        assert(0 <= q < k && st.removed_ids[r] == ids[q]);
    }
    if is_sorted(g.take(k)) {
        assert(is_sorted(g.take(k - 1))) by {
            assert forall|a: int, b: int| 0 <= a <= b < g.take(k - 1).len() implies (#[trigger] g.take(k - 1)[a]).time() <= (#[trigger] g.take(k - 1)[b]).time() by {
                assert(g.take(k - 1)[a] == g.take(k)[a]);
                assert(g.take(k - 1)[b] == g.take(k)[b]);
            }
        }
        lemma_glue_step_apart(st, g, ids, threshold, separate_channels, k);
    }
    let keep = match st.table[slot] {
        None => true,
        Some((last_end, ki)) => !(note.start <= last_end + threshold),
    };
    if keep {
        assert(nx == glue_keep(st, id, note, slot));
        assert(st.kept.len() as usize == st.kept.len());
        let m = st.kept.len() as int;
        assert(nx.kept[m] == note);
        assert forall|sl: int| 0 <= sl < nx.table.len() && (#[trigger] nx.table[sl]) is Some implies {
            let (e, ki) = nx.table[sl].unwrap();
            &&& ki < nx.kept.len()
            &&& nx.kept[ki as int].end_spec() == e
            &&& glue_slot(nx.kept[ki as int], separate_channels) == sl
            &&& forall|i: int| 0 <= i < nx.kept.len() && glue_slot(#[trigger] nx.kept[i], separate_channels) == sl ==> i <= ki
        } by {
            if sl != slot {
                assert(st.table[sl] is Some);
                assert(nx.table[sl] == st.table[sl]);
                let kj = st.table[sl].unwrap().1;
                assert forall|i: int| 0 <= i < nx.kept.len() && glue_slot(#[trigger] nx.kept[i], separate_channels) == sl implies i <= kj by {
                    if i < m {
                        assert(nx.kept[i] == st.kept[i]);
                    }
                }
            }
        }
        assert forall|sl: int| 0 <= sl < nx.table.len() && (#[trigger] nx.table[sl]) is None implies forall|i: int|
            0 <= i < nx.kept.len() ==> glue_slot(#[trigger] nx.kept[i], separate_channels) != sl by {
            assert(sl != slot);
            assert(nx.table[sl] == st.table[sl]);
            assert forall|i: int| 0 <= i < nx.kept.len() implies glue_slot(#[trigger] nx.kept[i], separate_channels) != sl by {
                if i < m {
                    assert(nx.kept[i] == st.kept[i]);
                }
            }
        }
        assert forall|i: int| 0 <= i < nx.kept.len() implies 0 <= glue_slot(#[trigger] nx.kept[i], separate_channels) < nx.table.len() by {
            if i < m {
                assert(nx.kept[i] == st.kept[i]);
            }
        }
        assert forall|i: int| 0 <= i < nx.kept.len() implies #[trigger] kept_from(nx, g, ids, k, separate_channels, i) by {
            if i < st.kept.len() {
                assert(kept_from(st, g, ids, k, separate_channels, i));
                let q = choose|q: int|
                    0 <= q < k && st.kept_ids[i] == #[trigger] ids[q] && same_place(st.kept[i], g[q]) && st.kept[i].end_spec()
                        >= g[q].end_spec() && (st.kept[i].end_spec() == g[q].end_spec() || exists|r: int|
                        0 <= r < st.removed.len() && (#[trigger] st.removed[r]).end_spec() == st.kept[i].end_spec()
                            && glue_slot(st.removed[r], separate_channels) == glue_slot(st.kept[i], separate_channels));
                assert(nx.kept[i] == st.kept[i]);
                assert(nx.kept_ids[i] == st.kept_ids[i]);
                assert(nx.kept_ids[i] == ids[q]);
                assert(nx.removed == st.removed);
            } else {
                assert(nx.kept[i] == note);
                assert(nx.kept_ids[i] == ids[k - 1]);
                assert(same_place(nx.kept[i], g[k - 1]));
                assert(nx.kept[i].end_spec() == g[k - 1].end_spec());
            }
        }
        assert forall|r: int| 0 <= r < nx.removed.len() implies #[trigger] removed_from(nx, g, ids, k, r) by {
            assert(removed_from(st, g, ids, k, r));
        }
        assert forall|r: int| 0 <= r < nx.removed.len() implies #[trigger] covered(nx, separate_channels, threshold, r) by {
            assert(covered(st, separate_channels, threshold, r));
            let i = choose|i: int|
                0 <= i < st.kept.len() && glue_slot(#[trigger] st.kept[i], separate_channels) == glue_slot(
                    st.removed[r],
                    separate_channels,
                ) && st.removed[r].end_spec() <= st.kept[i].end_spec() && st.removed[r].start <= st.kept[i].end_spec()
                    + threshold;
            assert(nx.kept[i] == st.kept[i]);
        }
    } else {
        let (last_end, ki) = st.table[slot].unwrap();
        assert(st.table[slot] is Some);
        let last = st.kept[ki as int];
        assert(last.end_spec() == last_end);
        assert(glue_slot(last, separate_channels) == slot);
        let new_end: int = if last_end >= note.end_spec() { last_end as int } else { note.end_spec() };
        let new_length = new_end - last.start;
        let nk = with_length(last, new_length as MIDITick);
        assert(nx.kept == st.kept.update(ki as int, nk));
        assert(nk.end_spec() == new_end);
        assert(glue_slot(nk, separate_channels) == slot);
        assert(nx.removed == st.removed.push(note));
        let rn = st.removed.len() as int;
        assert(nx.removed[rn] == note);
        assert forall|i: int| 0 <= i < nx.kept.len() implies glue_slot(#[trigger] nx.kept[i], separate_channels) == glue_slot(
            st.kept[i],
            separate_channels,
        ) by {}
        assert forall|sl: int| 0 <= sl < nx.table.len() && (#[trigger] nx.table[sl]) is Some implies {
            let (e, kj) = nx.table[sl].unwrap();
            &&& kj < nx.kept.len()
            &&& nx.kept[kj as int].end_spec() == e
            &&& glue_slot(nx.kept[kj as int], separate_channels) == sl
            &&& forall|i: int| 0 <= i < nx.kept.len() && glue_slot(#[trigger] nx.kept[i], separate_channels) == sl ==> i <= kj
        } by {
            if sl != slot {
                assert(st.table[sl] is Some);
                assert(nx.table[sl] == st.table[sl]);
                let kj = st.table[sl].unwrap().1;
                assert(kj != ki);
                assert forall|i: int| 0 <= i < nx.kept.len() && glue_slot(#[trigger] nx.kept[i], separate_channels) == sl implies i <= kj by {
                    assert(glue_slot(st.kept[i], separate_channels) == sl);
                }
            } else {
                assert forall|i: int| 0 <= i < nx.kept.len() && glue_slot(#[trigger] nx.kept[i], separate_channels) == sl implies i <= ki by {
                    assert(glue_slot(st.kept[i], separate_channels) == sl);
                }
            }
        }
        assert forall|sl: int| 0 <= sl < nx.table.len() && (#[trigger] nx.table[sl]) is None implies forall|i: int|
            0 <= i < nx.kept.len() ==> glue_slot(#[trigger] nx.kept[i], separate_channels) != sl by {
            assert(sl != slot);
            assert(nx.table[sl] == st.table[sl]);
            assert forall|i: int| 0 <= i < nx.kept.len() implies glue_slot(#[trigger] nx.kept[i], separate_channels) != sl by {
                assert(glue_slot(st.kept[i], separate_channels) != sl);
            }
        }
        assert forall|i: int| 0 <= i < nx.kept.len() implies 0 <= glue_slot(#[trigger] nx.kept[i], separate_channels) < nx.table.len() by {
            assert(0 <= glue_slot(st.kept[i], separate_channels) < st.table.len());
        }
        assert forall|i: int| 0 <= i < nx.kept.len() implies #[trigger] kept_from(nx, g, ids, k, separate_channels, i) by {
            assert(kept_from(st, g, ids, k, separate_channels, i));
            let q = choose|q: int|
                0 <= q < k && st.kept_ids[i] == #[trigger] ids[q] && same_place(st.kept[i], g[q]) && st.kept[i].end_spec()
                    >= g[q].end_spec() && (st.kept[i].end_spec() == g[q].end_spec() || exists|r: int|
                    0 <= r < st.removed.len() && (#[trigger] st.removed[r]).end_spec() == st.kept[i].end_spec()
                        && glue_slot(st.removed[r], separate_channels) == glue_slot(st.kept[i], separate_channels));
            assert(nx.kept_ids[i] == ids[q]);
            if st.kept[i].end_spec() != g[q].end_spec() && (i != ki as int || new_end == last_end) {
                let r = choose|r: int|
                    0 <= r < st.removed.len() && (#[trigger] st.removed[r]).end_spec() == st.kept[i].end_spec()
                        && glue_slot(st.removed[r], separate_channels) == glue_slot(st.kept[i], separate_channels);
                assert(nx.removed[r] == st.removed[r]);
            }
            if i == ki as int && new_end != last_end {
                assert(nx.removed[rn].end_spec() == nx.kept[i].end_spec());
            }
        }
        assert forall|r: int| 0 <= r < nx.removed.len() implies #[trigger] removed_from(nx, g, ids, k, r) by {
            if r < rn {
                assert(removed_from(st, g, ids, k, r));
                assert(nx.removed[r] == st.removed[r]);
                let q = choose|q: int| 0 <= q < k && st.removed_ids[r] == #[trigger] ids[q] && st.removed[r] == g[q];
                assert(nx.removed_ids[r] == ids[q]);
            } else {
                assert(nx.removed_ids[r] == ids[k - 1]);
            }
        }
        assert forall|r: int| 0 <= r < nx.removed.len() implies #[trigger] covered(nx, separate_channels, threshold, r) by {
            if r < rn {
                assert(covered(st, separate_channels, threshold, r));
                let i = choose|i: int|
                    0 <= i < st.kept.len() && glue_slot(#[trigger] st.kept[i], separate_channels) == glue_slot(
                        st.removed[r],
                        separate_channels,
                    ) && st.removed[r].end_spec() <= st.kept[i].end_spec() && st.removed[r].start <= st.kept[i].end_spec()
                        + threshold;
                assert(nx.removed[r] == st.removed[r]);
                assert(glue_slot(nx.kept[i], separate_channels) == glue_slot(st.kept[i], separate_channels));
            } else {
                assert(glue_slot(nx.kept[ki as int], separate_channels) == glue_slot(nx.removed[r], separate_channels));
            }
        }
    }
}

proof fn lemma_glue_step_apart(
    st: GlueState,
    g: Seq<Note>,
    ids: Seq<usize>,
    threshold: MIDITick,
    separate_channels: bool,
    k: int,
)
    requires
        1 <= k <= ids.len(),
        k <= g.len(),
        k <= usize::MAX,
        glue_state_wf(st, separate_channels, k - 1),
        glue_ends_inv(st, g, ids, k - 1, separate_channels, threshold),
        is_sorted(g.take(k)),
        is_sorted(g.take(k - 1)),
        glue_step(st, ids[k - 1], g[k - 1], threshold, separate_channels) is Some,
    ensures
        kept_apart(glue_step(st, ids[k - 1], g[k - 1], threshold, separate_channels)->0, separate_channels, threshold),
{
    let id = ids[k - 1];
    let note = g[k - 1];
    let nx = glue_step(st, id, note, threshold, separate_channels)->0;
    let slot = glue_slot(note, separate_channels);
    assert(kept_apart(st, separate_channels, threshold));
    let keep = match st.table[slot] {
        None => true,
        Some((last_end, ki)) => !(note.start <= last_end + threshold),
    };
    if keep {
        assert(nx == glue_keep(st, id, note, slot));
        let m = st.kept.len() as int;
        assert(nx.kept[m] == note);
        assert forall|i: int, j: int|
            0 <= i < j < nx.kept.len() && glue_slot(#[trigger] nx.kept[i], separate_channels) == glue_slot(
                #[trigger] nx.kept[j],
                separate_channels,
            ) implies nx.kept[j].start > nx.kept[i].end_spec() + threshold by {
            assert(nx.kept[i] == st.kept[i]);
            if j < m {
                assert(nx.kept[j] == st.kept[j]);
            } else {
                assert(glue_slot(st.kept[i], separate_channels) == slot);
                if st.table[slot] is None {
                    assert(glue_slot(st.kept[i], separate_channels) != slot);
                } else {
                    let (le, ki) = st.table[slot].unwrap();
                    assert(i <= ki);
                    if i < ki {
                        assert(glue_slot(st.kept[ki as int], separate_channels) == slot);
                        assert(st.kept[ki as int].start > st.kept[i].end_spec() + threshold);
                        assert(kept_from(st, g, ids, k - 1, separate_channels, ki as int));
                        let q = choose|q: int|
                            0 <= q < k - 1 && st.kept_ids[ki as int] == #[trigger] ids[q] && same_place(st.kept[ki as int], g[q])
                                && st.kept[ki as int].end_spec() >= g[q].end_spec() && (st.kept[ki as int].end_spec()
                                == g[q].end_spec() || exists|r: int|
                                0 <= r < st.removed.len() && (#[trigger] st.removed[r]).end_spec() == st.kept[ki as int].end_spec()
                                    && glue_slot(st.removed[r], separate_channels) == glue_slot(st.kept[ki as int], separate_channels));
                        assert(g.take(k)[q] == g[q]);
                        assert(g.take(k)[k - 1] == g[k - 1]);
                        assert(g.take(k)[q].time() <= g.take(k)[k - 1].time());
                    }
                }
            }
        }
    } else {
        let (last_end, ki) = st.table[slot].unwrap();
        assert(st.table[slot] is Some);
        let last = st.kept[ki as int];
        let new_end: int = if last_end >= note.end_spec() { last_end as int } else { note.end_spec() };
        let new_length = new_end - last.start;
        let nk = with_length(last, new_length as MIDITick);
        assert(nx.kept == st.kept.update(ki as int, nk));
        assert forall|i: int, j: int|
            0 <= i < j < nx.kept.len() && glue_slot(#[trigger] nx.kept[i], separate_channels) == glue_slot(
                #[trigger] nx.kept[j],
                separate_channels,
            ) implies nx.kept[j].start > nx.kept[i].end_spec() + threshold by {
            assert(glue_slot(nx.kept[i], separate_channels) == glue_slot(st.kept[i], separate_channels));
            assert(glue_slot(nx.kept[j], separate_channels) == glue_slot(st.kept[j], separate_channels));
            if i == ki as int {
                assert(glue_slot(st.kept[j], separate_channels) == slot);
                assert(j <= ki);
            }
        }
    }
}

proof fn lemma_glue_fold_ends(g: Seq<Note>, ids: Seq<usize>, threshold: MIDITick, separate_channels: bool, k: int)
    requires
        0 <= k <= ids.len(),
        k <= g.len(),
        k <= usize::MAX,
        glue_fold(g, ids, threshold, separate_channels, k) is Some,
    ensures
        glue_ends_inv(glue_fold(g, ids, threshold, separate_channels, k)->0, g, ids, k, separate_channels, threshold),
    decreases k,
{
    if k == 0 {
        let st = glue_start(separate_channels);
        assert forall|sl: int| 0 <= sl < st.table.len() implies !((#[trigger] st.table[sl]) is Some) by {}
    } else {
        lemma_glue_fold_some_prefix(g, ids, threshold, separate_channels, k - 1, k);
        lemma_glue_fold_ends(g, ids, threshold, separate_channels, k - 1);
        lemma_glue_fold_wf(g, ids, threshold, separate_channels, k - 1);
        let st = glue_fold(g, ids, threshold, separate_channels, k - 1)->0;
        lemma_glue_step_ends(st, g, ids, threshold, separate_channels, k);
    }
}

/// Glueing never shortens a note and glues exactly the notes that reach a
/// kept one: every kept note is one of the notes to glue, at the same start
/// with the same key, channel and velocity, and ends no earlier than that
/// note did; where it ends later, it ends where a note glued onto it (one
/// of its key, and channel when channels are kept apart) ended. Every note
/// glued away is one of the notes to glue, as it was, and lies on a kept
/// note of its key (and channel): it starts no later than `threshold` after
/// that note's end and ends no later than it. On notes in order by start,
/// kept notes of one key (and channel) are more than `threshold` apart.
pub proof fn lemma_glue_ends_law(notes: Seq<Note>, ids: Seq<usize>, threshold: MIDITick, separate_channels: bool)
    requires
        glue_spec(notes, ids, threshold, separate_channels) is Some,
        ids.len() <= usize::MAX,
    ensures
        ({
            let st = glue_spec(notes, ids, threshold, separate_channels)->0;
            let c = glue_count(notes, ids);
            let g = extract_spec(notes, ids).0;
            &&& forall|i: int| 0 <= i < st.kept.len() ==> #[trigger] kept_from(st, g, ids, c, separate_channels, i)
            &&& forall|r: int| 0 <= r < st.removed.len() ==> #[trigger] removed_from(st, g, ids, c, r)
            &&& forall|r: int| 0 <= r < st.removed.len() ==> #[trigger] covered(st, separate_channels, threshold, r)
            &&& is_sorted(notes) ==> kept_apart(st, separate_channels, threshold)
        }),
{
    let g = extract_spec(notes, ids).0;
    let c = glue_count(notes, ids);
    lemma_glue_fold_ends(g, ids, threshold, separate_channels, c);
    if is_sorted(notes) {
        crate::note_sequence_funcs::lemma_extract_from_sorted(notes, ids, 0, 0, 0);
        assert(is_sorted(g.take(c))) by {
            assert forall|a: int, b: int| 0 <= a <= b < g.take(c).len() implies (#[trigger] g.take(c)[a]).time() <= (#[trigger] g.take(c)[b]).time() by {
                assert(g.take(c)[a] == g[a]);
                assert(g.take(c)[b] == g[b]);
            }
        }
    }
}

/// A note without its length: what glueing leaves of a kept note.
pub open spec fn note_shape(n: Note) -> Note {
    with_length(n, 0)
}

proof fn lemma_glue_fold_perm(g: Seq<Note>, ids: Seq<usize>, threshold: MIDITick, separate_channels: bool, k: int)
    requires
        0 <= k <= ids.len(),
        k <= g.len(),
        glue_fold(g, ids, threshold, separate_channels, k) is Some,
    ensures
        ({
            let st = glue_fold(g, ids, threshold, separate_channels, k)->0;
            &&& st.kept_ids.to_multiset().add(st.removed_ids.to_multiset()) == ids.take(k).to_multiset()
            &&& st.kept.map_values(|n: Note| note_shape(n)).to_multiset().add(
                st.removed.map_values(|n: Note| note_shape(n)).to_multiset(),
            ) == g.take(k).map_values(|n: Note| note_shape(n)).to_multiset()
        }),
    decreases k,
{
    broadcast use vstd::seq_lib::group_to_multiset_ensures;
    broadcast use vstd::multiset::group_multiset_axioms;

    if k == 0 {
        let st = glue_start(separate_channels);
        assert(st.kept_ids.to_multiset() =~= vstd::multiset::Multiset::empty());
        assert(st.removed_ids.to_multiset() =~= vstd::multiset::Multiset::empty());
        assert(ids.take(0).to_multiset() =~= vstd::multiset::Multiset::empty());
        assert(st.kept.map_values(|n: Note| note_shape(n)).to_multiset() =~= vstd::multiset::Multiset::empty());
        assert(st.removed.map_values(|n: Note| note_shape(n)).to_multiset() =~= vstd::multiset::Multiset::empty());
        assert(g.take(0).map_values(|n: Note| note_shape(n)).to_multiset() =~= vstd::multiset::Multiset::empty());
        assert(st.kept_ids.to_multiset().add(st.removed_ids.to_multiset()) =~= ids.take(0).to_multiset());
        assert(st.kept.map_values(|n: Note| note_shape(n)).to_multiset().add(
            st.removed.map_values(|n: Note| note_shape(n)).to_multiset(),
        ) =~= g.take(0).map_values(|n: Note| note_shape(n)).to_multiset());
    } else {
        lemma_glue_fold_some_prefix(g, ids, threshold, separate_channels, k - 1, k);
        lemma_glue_fold_perm(g, ids, threshold, separate_channels, k - 1);
        let p = glue_fold(g, ids, threshold, separate_channels, k - 1)->0;
        let st = glue_fold(g, ids, threshold, separate_channels, k)->0;
        let id = ids[k - 1];
        let note = g[k - 1];
        let pk = p.kept.map_values(|n: Note| note_shape(n));
        let pr = p.removed.map_values(|n: Note| note_shape(n));
        let sk = st.kept.map_values(|n: Note| note_shape(n));
        let sr = st.removed.map_values(|n: Note| note_shape(n));
        let gk = g.take(k).map_values(|n: Note| note_shape(n));
        let gp = g.take(k - 1).map_values(|n: Note| note_shape(n));
        assert(ids.take(k) =~= ids.take(k - 1).push(id));
        assert(gk =~= gp.push(note_shape(note)));
        let slot = glue_slot(note, separate_channels);
        let kept_now = match p.table[slot] {
            None => true,
            Some((last_end, ki)) => !(note.start <= last_end + threshold),
        };
        if kept_now {
            assert(st == glue_keep(p, id, note, slot));
            assert(sk =~= pk.push(note_shape(note)));
            assert(sr =~= pr);
            assert(st.kept_ids.to_multiset().add(st.removed_ids.to_multiset()) =~= ids.take(k).to_multiset());
            assert(sk.to_multiset().add(sr.to_multiset()) =~= gk.to_multiset());
        } else {
            let ki = p.table[slot].unwrap().1;
            assert(ki < p.kept.len());
            let last = p.kept[ki as int];
            assert(sk =~= pk) by {
                assert forall|i: int| 0 <= i < sk.len() implies sk[i] == pk[i] by {
                    if i == ki as int {
                        assert(note_shape(st.kept[i]) == note_shape(last));
                    }
                }
            }
            assert(sr =~= pr.push(note_shape(note)));
            assert(st.kept_ids.to_multiset().add(st.removed_ids.to_multiset()) =~= ids.take(k).to_multiset());
            assert(sk.to_multiset().add(sr.to_multiset()) =~= gk.to_multiset());
        }
    }
}

/// Glueing loses no note and makes none up: each of the ids it goes
/// through ends up either among the kept ids or among the glued-away ones,
/// and likewise each of those notes, taken without its length (a kept note
/// keeps its start, key, channel and velocity; only its length changes).
pub proof fn lemma_glue_law(notes: Seq<Note>, ids: Seq<usize>, threshold: MIDITick, separate_channels: bool)
    requires
        glue_spec(notes, ids, threshold, separate_channels) is Some,
    ensures
        ({
            let st = glue_spec(notes, ids, threshold, separate_channels)->0;
            let c = glue_count(notes, ids);
            let g = extract_spec(notes, ids).0;
            &&& st.kept_ids.to_multiset().add(st.removed_ids.to_multiset()) == ids.take(c).to_multiset()
            &&& st.kept.map_values(|n: Note| note_shape(n)).to_multiset().add(
                st.removed.map_values(|n: Note| note_shape(n)).to_multiset(),
            ) == g.take(c).map_values(|n: Note| note_shape(n)).to_multiset()
        }),
{
    lemma_glue_fold_perm(extract_spec(notes, ids).0, ids, threshold, separate_channels, glue_count(notes, ids));
}

/// What removing overlaps has built so far: the (start, key) pairs seen,
/// the notes kept, and the notes dropped with their positions among the
/// selected notes.
pub struct OverlapState {
    pub seen: Set<(MIDITick, u8)>,
    pub kept: Seq<Note>,
    pub removed: Seq<Note>,
    pub removed_idx: Seq<usize>,
}

/// Going through the first `k` selected notes: a note whose start and key
/// were already seen is dropped, any other is kept.
pub open spec fn overlap_fold(sel: Seq<Note>, k: int) -> OverlapState
    decreases k,
{
    if k <= 0 {
        OverlapState { seen: Set::empty(), kept: Seq::empty(), removed: Seq::empty(), removed_idx: Seq::empty() }
    } else {
        let p = overlap_fold(sel, k - 1);
        let n = sel[k - 1];
        if p.seen.contains((n.start, n.key)) {
            OverlapState {
                seen: p.seen,
                kept: p.kept,
                removed: p.removed.push(n),
                removed_idx: p.removed_idx.push((k - 1) as usize),
            }
        } else {
            OverlapState {
                seen: p.seen.insert((n.start, n.key)),
                kept: p.kept.push(n),
                removed: p.removed,
                removed_idx: p.removed_idx,
            }
        }
    }
}

/// A number that stands for a (start, key) pair.
pub open spec fn overlap_code(start: MIDITick, key: u8) -> u64 {
    (start as int * 256 + key as int) as u64
}

proof fn lemma_overlap_code_injective(a: MIDITick, k: u8, b: MIDITick, l: u8)
    requires
        overlap_code(a, k) == overlap_code(b, l),
    ensures
        a == b && k == l,
{
    assert(a as int * 256 + k as int <= u64::MAX) by (nonlinear_arith)
        requires
            a <= u32::MAX,
            k < 256,
    ;
    assert(b as int * 256 + l as int <= u64::MAX) by (nonlinear_arith)
        requires
            b <= u32::MAX,
            l < 256,
    ;
    assert(a == b && k == l) by (nonlinear_arith)
        requires
            a as int * 256 + k as int == b as int * 256 + l as int,
            0 <= k < 256,
            0 <= l < 256,
    ;
}

proof fn lemma_overlap_fold_len(sel: Seq<Note>, k: int)
    requires
        0 <= k,
    ensures
        overlap_fold(sel, k).kept.len() + overlap_fold(sel, k).removed.len() == k,
        overlap_fold(sel, k).removed.len() == overlap_fold(sel, k).removed_idx.len(),
    decreases k,
{
    if k > 0 {
        lemma_overlap_fold_len(sel, k - 1);
    }
}

/// Some note of `kept` has this start and key.
pub open spec fn has_pair(kept: Seq<Note>, start: MIDITick, key: u8) -> bool {
    exists|i: int| 0 <= i < kept.len() && #[trigger] kept[i].start == start && kept[i].key == key
}

proof fn lemma_overlap_fold_perm(sel: Seq<Note>, k: int)
    requires
        0 <= k <= sel.len(),
        sel.len() <= usize::MAX,
    ensures
        ({
            let st = overlap_fold(sel, k);
            &&& st.kept.to_multiset().add(st.removed.to_multiset()) == sel.take(k).to_multiset()
            &&& st.removed.len() == st.removed_idx.len()
            &&& forall|r: int| 0 <= r < st.removed_idx.len() ==> #[trigger] st.removed_idx[r] < k
                && sel[st.removed_idx[r] as int] == st.removed[r]
        }),
    decreases k,
{
    broadcast use vstd::seq_lib::group_to_multiset_ensures;
    broadcast use vstd::multiset::group_multiset_axioms;

    let st = overlap_fold(sel, k);
    if k == 0 {
        assert(st.kept.to_multiset() =~= vstd::multiset::Multiset::empty());
        assert(st.removed.to_multiset() =~= vstd::multiset::Multiset::empty());
        assert(sel.take(0).to_multiset() =~= vstd::multiset::Multiset::empty());
        assert(st.kept.to_multiset().add(st.removed.to_multiset()) =~= sel.take(0).to_multiset());
    } else {
        lemma_overlap_fold_perm(sel, k - 1);
        let p = overlap_fold(sel, k - 1);
        let n = sel[k - 1];
        assert(sel.take(k) =~= sel.take(k - 1).push(n));
        if p.seen.contains((n.start, n.key)) {
            assert(st.kept.to_multiset().add(st.removed.to_multiset()) =~= sel.take(k).to_multiset());
            assert forall|r: int| 0 <= r < st.removed_idx.len() implies #[trigger] st.removed_idx[r] < k
                && sel[st.removed_idx[r] as int] == st.removed[r] by {
                if r < p.removed_idx.len() {
                    assert(st.removed_idx[r] == p.removed_idx[r]);
                    assert(st.removed[r] == p.removed[r]);
                }
            }
        } else {
            assert(st.kept.to_multiset().add(st.removed.to_multiset()) =~= sel.take(k).to_multiset());
        }
    }
}

/// Removing overlaps leaves no two kept notes with the same start and key,
/// and every dropped note has the start and key of a kept one; each
/// selected note is either kept or dropped, and each dropped note is
/// reported with its place among the selected notes.
pub proof fn lemma_overlaps_removed(sel: Seq<Note>, k: int)
    requires
        0 <= k <= sel.len(),
        sel.len() <= usize::MAX,
    ensures
        ({
            let st = overlap_fold(sel, k);
            &&& st.kept.to_multiset().add(st.removed.to_multiset()) == sel.take(k).to_multiset()
            &&& st.removed.len() == st.removed_idx.len()
            &&& forall|r: int| 0 <= r < st.removed_idx.len() ==> #[trigger] st.removed_idx[r] < k
                && sel[st.removed_idx[r] as int] == st.removed[r]
            &&& forall|i: int, j: int|
                0 <= i < j < st.kept.len() ==> (#[trigger] st.kept[i].start, st.kept[i].key) != (
                    #[trigger] st.kept[j].start,
                    st.kept[j].key,
                )
            &&& forall|r: int|
                0 <= r < st.removed.len() ==> has_pair(st.kept, (#[trigger] st.removed[r]).start, st.removed[r].key)
        }),
{
    lemma_overlap_seen(sel, k);
    lemma_overlap_fold_perm(sel, k);
}

/// The pairs seen are exactly the (start, key) pairs of the kept notes,
/// and the kept notes have distinct pairs.
proof fn lemma_overlap_seen(sel: Seq<Note>, k: int)
    requires
        0 <= k <= sel.len(),
    ensures
        ({
            let st = overlap_fold(sel, k);
            &&& forall|e: (MIDITick, u8)| #[trigger] st.seen.contains(e) <==> has_pair(st.kept, e.0, e.1)
            &&& forall|i: int, j: int|
                0 <= i < j < st.kept.len() ==> (#[trigger] st.kept[i].start, st.kept[i].key) != (
                    #[trigger] st.kept[j].start,
                    st.kept[j].key,
                )
            &&& forall|r: int|
                0 <= r < st.removed.len() ==> has_pair(st.kept, (#[trigger] st.removed[r]).start, st.removed[r].key)
        }),
    decreases k,
{
    if k > 0 {
        lemma_overlap_seen(sel, k - 1);
        let p = overlap_fold(sel, k - 1);
        let st = overlap_fold(sel, k);
        let n = sel[k - 1];
        if p.seen.contains((n.start, n.key)) {
            assert(st.kept == p.kept);
            assert(st.seen == p.seen);
            assert forall|r: int| 0 <= r < st.removed.len() implies has_pair(st.kept, (#[trigger] st.removed[r]).start, st.removed[r].key) by {
                if r < p.removed.len() {
                    assert(st.removed[r] == p.removed[r]);
                } else {
                    assert(st.removed[r] == n);
                }
            }
        } else {
            assert(st.kept == p.kept.push(n));
            assert forall|e: (MIDITick, u8)| #[trigger] st.seen.contains(e) <==> has_pair(st.kept, e.0, e.1) by {
                if st.seen.contains(e) {
                    if e == (n.start, n.key) {
                        assert(st.kept[st.kept.len() - 1] == n);
                    } else {
                        assert(p.seen.contains(e));
                        let i1 = choose|i: int| 0 <= i < p.kept.len() && #[trigger] p.kept[i].start == e.0 && p.kept[i].key == e.1;
                        assert(st.kept[i1] == p.kept[i1]);
                    }
                }
                if has_pair(st.kept, e.0, e.1) {
                    let i1 = choose|i: int| 0 <= i < st.kept.len() && #[trigger] st.kept[i].start == e.0 && st.kept[i].key == e.1;
                    if i1 < p.kept.len() {
                        assert(p.kept[i1] == st.kept[i1]);
                        assert(has_pair(p.kept, e.0, e.1));
                    }
                }
            }
            assert forall|i: int, j: int| 0 <= i < j < st.kept.len() implies (#[trigger] st.kept[i].start, st.kept[i].key) != (
                #[trigger] st.kept[j].start,
                st.kept[j].key,
            ) by {
                assert(st.kept[i] == p.kept[i]);
                if j == st.kept.len() - 1 {
                    if (st.kept[i].start, st.kept[i].key) == (n.start, n.key) {
                        assert(has_pair(p.kept, n.start, n.key));
                        assert(p.seen.contains((n.start, n.key)));
                    }
                } else {
                    assert(st.kept[j] == p.kept[j]);
                }
            }
            assert forall|r: int| 0 <= r < st.removed.len() implies has_pair(st.kept, (#[trigger] st.removed[r]).start, st.removed[r].key) by {
                assert(st.removed[r] == p.removed[r]);
                assert(has_pair(p.kept, p.removed[r].start, p.removed[r].key));
                let i1 = choose|i: int| 0 <= i < p.kept.len() && #[trigger] p.kept[i].start == p.removed[r].start
                    && p.kept[i].key == p.removed[r].key;
                assert(st.kept[i1] == p.kept[i1]);
            }
        }
    }
}

/// Among the selected notes, drops each note that has the same start and
/// key as an earlier selected note. Returns the positions (among the
/// selected notes) and the notes that were dropped.
pub fn remove_overlaps(notes: &mut Vec<Note>, sel_note_ids: &Vec<usize>) -> (r: (Vec<usize>, Vec<Note>))
    ensures
        sel_note_ids@.len() == 0 ==> final(notes)@ == old(notes)@ && r.0@.len() == 0 && r.1@.len() == 0,
        sel_note_ids@.len() > 0 ==> ({
            let e = extract_spec(old(notes)@, sel_note_ids@);
            let st = overlap_fold(e.0, e.0.len() as int);
            &&& final(notes)@ == merge_spec(e.1, st.kept)
            &&& r.0@ == st.removed_idx
            &&& r.1@ == st.removed
        }),
{
    if sel_note_ids.len() == 0 {
        return (Vec::new(), Vec::new());
    }
    let ghost orig = notes@;
    let n_all = notes.len();
    let mut old_notes: Vec<Note> = Vec::new();
    std::mem::swap(&mut old_notes, notes);
    let (extracted_notes, new_notes) = extract(old_notes, sel_note_ids);
    proof {
        crate::note_sequence_funcs::lemma_extract_from_multiset(orig, sel_note_ids@, 0, 0);
    }
    let mut lookup: HashSet<u64> = HashSet::new();
    let mut kept_notes: Vec<Note> = Vec::new();
    let mut removed_indices: Vec<usize> = Vec::new();
    let mut removed_notes: Vec<Note> = Vec::new();
    let n = extracted_notes.len();
    let ghost sel = extracted_notes@;
    let mut idx: usize = 0;
    while idx < n
        invariant
            idx <= n,
            n == sel.len(),
            extracted_notes@ == sel,
            kept_notes@ == overlap_fold(sel, idx as int).kept,
            removed_notes@ == overlap_fold(sel, idx as int).removed,
            removed_indices@ == overlap_fold(sel, idx as int).removed_idx,
            forall|e: (MIDITick, u8)| #[trigger] overlap_fold(sel, idx as int).seen.contains(e) <==> lookup@.contains(
                overlap_code(e.0, e.1),
            ),
        decreases n - idx,
    {
        let note = extracted_notes[idx];
        let code: u64 = (note.start as u64) * 256 + (note.key as u64);
        assert(code == overlap_code(note.start, note.key));
        let ghost before = lookup@;
        let ghost p = overlap_fold(sel, idx as int);
        let ghost ne = (note.start, note.key);
        assert(p.seen.contains(ne) <==> before.contains(overlap_code(ne.0, ne.1)));
        if lookup.contains(&code) {
            removed_notes.push(note);
            removed_indices.push(idx);
            assert(overlap_fold(sel, idx + 1).seen == p.seen);
        } else {
            lookup.insert(code);
            kept_notes.push(note);
            proof {
                assert(overlap_fold(sel, idx + 1).seen == p.seen.insert(ne));
                assert forall|e: (MIDITick, u8)| #[trigger] overlap_fold(sel, idx + 1).seen.contains(e) <==> lookup@.contains(
                    overlap_code(e.0, e.1),
                ) by {
                    assert(p.seen.contains(e) <==> before.contains(overlap_code(e.0, e.1)));
                    if overlap_code(e.0, e.1) == code {
                        lemma_overlap_code_injective(e.0, e.1, note.start, note.key);
                    }
                }
            }
        }
        idx += 1;
    }
    proof {
        lemma_overlap_fold_len(sel, n as int);
        assert(sel.len() + new_notes@.len() == n_all);
    }
    let merged = merge_notes(new_notes, kept_notes);
    *notes = merged;
    (removed_indices, removed_notes)
}

/// An edit applied to the selected notes of one track.
pub enum EditFunction {
    FlipX(Vec<usize>),
    FlipY(Vec<usize>),
    /// Cut notes into pieces of at most the given number of ticks.
    Chop(Vec<usize>, MIDITick),
    /// Glue notes that follow each other within the given number of ticks;
    /// the flag keeps channels apart.
    Glue(Vec<usize>, MIDITick, bool),
    RemoveOverlaps,
    SliceAtTick(Vec<usize>, MIDITick),
}

/// The inputs on which an edit runs through. The flips were withdrawn and
/// always fail.
pub open spec fn edit_function_ok(notes: Seq<Note>, sel: Seq<usize>, f: EditFunction) -> bool {
    match f {
        EditFunction::FlipX(_) => false,
        EditFunction::FlipY(_) => false,
        EditFunction::Chop(ids, max_len) => chop_ok(notes, ids@, max_len),
        EditFunction::Glue(ids, threshold, separate) => ids@.len() == 0 || glue_spec(notes, ids@, threshold, separate) is Some,
        EditFunction::RemoveOverlaps => true,
        EditFunction::SliceAtTick(ids, tick) => slice_ok(notes, ids@, tick),
    }
}

/// The notes after an edit, and the action recorded for it (none when the
/// edit records nothing).
pub open spec fn edit_result(notes: Seq<Note>, sel: Seq<usize>, f: EditFunction, track: u16) -> (Seq<Note>, Option<ActionView>) {
    match f {
        EditFunction::Chop(ids, max_len) => {
            let c = chop_fold(notes, ids@, max_len, ids@.len() as int);
            let pieces = sort_spec(c.1);
            (
                merge_spec(c.0, pieces),
                Some(ActionView::Bulk(seq![
                    ActionView::PlaceNotes(ints_as_usizes(merge_positions(c.0, pieces)), None, track),
                    ActionView::LengthChange(ids@, c.2, track),
                ])),
            )
        },
        EditFunction::Glue(ids, threshold, separate) => {
            if ids@.len() == 0 {
                (notes, None)
            } else {
                let st = glue_spec(notes, ids@, threshold, separate)->0;
                let rest = extract_spec(notes, ids@).1;
                (
                    merge_spec(rest, st.kept),
                    Some(ActionView::Bulk(seq![
                        ActionView::DeleteNotes(st.removed_ids, Some(st.removed), track),
                        ActionView::LengthChange(ints_as_usizes(merge_positions(rest, st.kept)), st.changes, track),
                    ])),
                )
            }
        },
        EditFunction::SliceAtTick(ids, tick) => {
            let c = slice_fold(notes, ids@, tick, ids@.len() as int);
            (
                merge_spec(c.0, c.1),
                Some(ActionView::Bulk(seq![
                    ActionView::PlaceNotes(ints_as_usizes(merge_positions(c.0, c.1)), None, track),
                    ActionView::LengthChange(c.3, c.2, track),
                ])),
            )
        },
        EditFunction::RemoveOverlaps => {
            if sel.len() == 0 {
                (notes, None)
            } else {
                let e = extract_spec(notes, sel);
                let st = overlap_fold(e.0, e.0.len() as int);
                (
                    merge_spec(e.1, st.kept),
                    if st.removed.len() == 0 {
                        None
                    } else {
                        Some(ActionView::DeleteNotes(st.removed_idx, Some(st.removed), track))
                    },
                )
            }
        },
        _ => (notes, None),
    }
}

/// The notes `e` given new starts and lengths, one span per note.
pub open spec fn respanned(e: Seq<Note>, spans: Seq<(MIDITick, MIDITick)>) -> Seq<Note> {
    Seq::new(e.len(), |k: int| with_span(e[k], spans[k].0 as int, spans[k].1 as int))
}

/// The new spans can be recorded: each change of start and of length,
/// both read as signed ticks, is a signed tick.
pub open spec fn respan_ok(e: Seq<Note>, spans: Seq<(MIDITick, MIDITick)>) -> bool {
    &&& spans.len() == e.len()
    &&& forall|k: int| 0 <= k < e.len() ==> length_diff_fits((#[trigger] spans[k]).0, e[k].start)
        && length_diff_fits(spans[k].1, e[k].length)
}

/// The action that records giving the notes `e` (taken from `ids`) new
/// spans, once they landed at `new_ids`: their length changes, then their
/// moves.
pub open spec fn respan_action(
    ids: Seq<usize>,
    e: Seq<Note>,
    spans: Seq<(MIDITick, MIDITick)>,
    new_ids: Seq<usize>,
    track: u16,
) -> ActionView {
    ActionView::Bulk(seq![
        ActionView::LengthChange(ids, Seq::new(e.len(), |k: int| length_diff(spans[k].1, e[k].length)), track),
        ActionView::NotesMove(
            new_ids,
            Seq::new(e.len(), |k: int| (length_diff(spans[k].0, e[k].start), 0i16)),
            track,
            true,
        ),
    ])
}

/// Stretching, once the new starts and lengths are known: the notes at
/// `note_ids` are taken out, given the spans in `new_spans` (one per note,
/// in the order they were taken out), put back among the others, and the
/// change is recorded as one action of length changes and moves.
pub fn place_stretched_notes(
    notes: &mut Vec<Note>,
    note_ids: Vec<usize>,
    new_spans: &Vec<(MIDITick, MIDITick)>,
    curr_track: u16,
    editor_actions: &mut EditorActions,
)
    requires
        respan_ok(extract_spec(old(notes)@, note_ids@).0, new_spans@),
        old(editor_actions).wf(),
        old(editor_actions).max_actions_spec() > 0,
    ensures
        ({
            let e = extract_spec(old(notes)@, note_ids@);
            let moved = respanned(e.0, new_spans@);
            &&& final(notes)@ == merge_spec(e.1, moved)
            &&& final(editor_actions).wf()
            &&& final(editor_actions).history() == old(editor_actions).history_after_register(
                respan_action(note_ids@, e.0, new_spans@, ints_as_usizes(merge_positions(e.1, moved)), curr_track),
            )
            &&& final(editor_actions).undo_depth_spec() == 0
            &&& final(editor_actions).max_actions_spec() == old(editor_actions).max_actions_spec()
        }),
{
    let ghost orig = notes@;
    let total = notes.len();
    let mut old_notes: Vec<Note> = Vec::new();
    std::mem::swap(&mut old_notes, notes);
    let (to_move, remaining) = extract(old_notes, &note_ids);
    proof {
        crate::note_sequence_funcs::lemma_extract_from_multiset(orig, note_ids@, 0, 0);
        assert(orig.skip(0) =~= orig);
        assert(orig.len() == total);
    }
    let ghost e = to_move@;
    let n = to_move.len();
    assert(remaining@.len() + n == orig.len());
    let mut moved: Vec<Note> = Vec::with_capacity(n);
    let mut pos_change: Vec<(SignedMIDITick, i16)> = Vec::with_capacity(n);
    let mut length_change: Vec<SignedMIDITick> = Vec::with_capacity(n);
    for k in 0..n
        invariant
            n == e.len(),
            to_move@ == e,
            remaining@.len() + n <= usize::MAX,
            respan_ok(e, new_spans@),
            moved@ == respanned(e, new_spans@).take(k as int),
            length_change@ == Seq::new(e.len(), |q: int| length_diff(new_spans@[q].1, e[q].length)).take(k as int),
            pos_change@ == Seq::new(e.len(), |q: int| (length_diff(new_spans@[q].0, e[q].start), 0i16)).take(k as int),
    {
        let note = to_move[k];
        let (new_tick, new_length) = new_spans[k];
        proof {
            assert(length_diff_fits(new_spans@[k as int].0, e[k as int].start));
        }
        pos_change.push(((#[verifier::truncate] (new_tick as SignedMIDITick)) - (#[verifier::truncate] (note.start as SignedMIDITick)), 0i16));
        length_change.push((#[verifier::truncate] (new_length as SignedMIDITick)) - (#[verifier::truncate] (note.length as SignedMIDITick)));
        moved.push(Note { start: new_tick, length: new_length, channel: note.channel, key: note.key, velocity: note.velocity });
        proof {
            assert(moved@ =~= respanned(e, new_spans@).take(k + 1));
            assert(length_change@ =~= Seq::new(e.len(), |q: int| length_diff(new_spans@[q].1, e[q].length)).take(k + 1));
            assert(pos_change@ =~= Seq::new(e.len(), |q: int| (length_diff(new_spans@[q].0, e[q].start), 0i16)).take(k + 1));
        }
    }
    proof {
        assert(moved@ =~= respanned(e, new_spans@));
        assert(length_change@ =~= Seq::new(e.len(), |q: int| length_diff(new_spans@[q].1, e[q].length)));
        assert(pos_change@ =~= Seq::new(e.len(), |q: int| (length_diff(new_spans@[q].0, e[q].start), 0i16)));
    }
    let (merged, new_ids) = merge_notes_and_return_ids(remaining, moved);
    *notes = merged;
    let ghost nv = new_ids@;
    let a = EditorAction::LengthChange(note_ids, length_change, curr_track);
    let b = EditorAction::NotesMove(new_ids, pos_change, curr_track, true);
    let v = vec![a, b];
    proof {
        lemma_pair_view(v);
        lemma_ints_usizes_roundtrip(nv);
    }
    editor_actions.register_action(EditorAction::Bulk(v));
}

proof fn lemma_ints_usizes_roundtrip(s: Seq<usize>)
    ensures
        ints_as_usizes(usizes_as_ints(s)) == s,
{
    assert(ints_as_usizes(usizes_as_ints(s)) =~= s);
}

proof fn lemma_pair_view(v: Vec<EditorAction>)
    requires
        v@.len() == 2,
    ensures
        action_view(EditorAction::Bulk(v)) == ActionView::Bulk(seq![action_view(v@[0]), action_view(v@[1])]),
{
    if let ActionView::Bulk(s) = action_view(EditorAction::Bulk(v)) {
        assert(s =~= seq![action_view(v@[0]), action_view(v@[1])]);
    }
}

/// Applies edits to the notes of a track and records them for undo.
#[derive(Default)]
pub struct EditFunctions;

impl EditFunctions {
    /// Applies `func` to `notes` (the notes of `curr_track`, whose selection
    /// is `sel_note_ids`) and records what it did in `editor_actions`.
    pub fn apply_function(
        &mut self,
        notes: &mut Vec<Note>,
        sel_note_ids: &mut Vec<usize>,
        func: EditFunction,
        curr_track: u16,
        editor_actions: &mut EditorActions,
    )
        requires
            edit_function_ok(old(notes)@, old(sel_note_ids)@, func),
            old(editor_actions).wf(),
            edit_result(old(notes)@, old(sel_note_ids)@, func, curr_track).1 is Some ==> old(editor_actions).max_actions_spec() > 0,
        ensures
            final(notes)@ == edit_result(old(notes)@, old(sel_note_ids)@, func, curr_track).0,
            final(sel_note_ids)@ == old(sel_note_ids)@,
            match edit_result(old(notes)@, old(sel_note_ids)@, func, curr_track).1 {
                Some(a) => {
                    &&& final(editor_actions).wf()
                    &&& final(editor_actions).history() == old(editor_actions).history_after_register(a)
                    &&& final(editor_actions).undo_depth_spec() == 0
                    &&& final(editor_actions).max_actions_spec() == old(editor_actions).max_actions_spec()
                },
                None => *final(editor_actions) == *old(editor_actions),
            },
    {
        match func {
            EditFunction::FlipX(_) => {
                proof {
                    assert(false);
                }
            },
            EditFunction::FlipY(_) => {
                proof {
                    assert(false);
                }
            },
            EditFunction::Chop(note_ids, max_len) => {
                let (chopped_ids, changed_lengths) = chop_notes(notes, &note_ids, max_len);
                let ghost ids_view = note_ids@;
                let ghost ch = changed_lengths@;
                let ghost cv = chopped_ids@;
                let a = EditorAction::PlaceNotes(chopped_ids, None, curr_track);
                let b = EditorAction::LengthChange(note_ids, changed_lengths, curr_track);
                let v = vec![a, b];
                proof {
                    lemma_pair_view(v);
                    lemma_ints_usizes_roundtrip(cv);
                }
                editor_actions.register_action(EditorAction::Bulk(v));
            },
            EditFunction::Glue(note_ids, glue_threshold, separate_channels) => {
                if note_ids.len() == 0 {
                    return;
                }
                let (removed_ids, removed_notes, new_ids, changes) = glue_notes(notes, note_ids, glue_threshold, separate_channels);
                let ghost nv = new_ids@;
                let a = EditorAction::DeleteNotes(removed_ids, Some(removed_notes), curr_track);
                let b = EditorAction::LengthChange(new_ids, changes, curr_track);
                let v = vec![a, b];
                proof {
                    lemma_pair_view(v);
                    lemma_ints_usizes_roundtrip(nv);
                }
                editor_actions.register_action(EditorAction::Bulk(v));
            },
            EditFunction::SliceAtTick(note_ids, slice_tick) => {
                let (new_ids, affected_ids, changed_lengths) = slice_notes_at_tick(notes, note_ids, slice_tick);
                let ghost nv = new_ids@;
                let a = EditorAction::PlaceNotes(new_ids, None, curr_track);
                let b = EditorAction::LengthChange(affected_ids, changed_lengths, curr_track);
                let v = vec![a, b];
                proof {
                    lemma_pair_view(v);
                    lemma_ints_usizes_roundtrip(nv);
                }
                editor_actions.register_action(EditorAction::Bulk(v));
            },
            EditFunction::RemoveOverlaps => {
                let (removed_indices, removed_notes) = remove_overlaps(notes, sel_note_ids);
                if removed_notes.len() == 0 {
                    return;
                }
                editor_actions.register_action(EditorAction::DeleteNotes(removed_indices, Some(removed_notes), curr_track));
            },
        }
    }
}

} // verus!
