use vstd::prelude::*;
use vstd::multiset::Multiset;
use crate::midi_types::{Note, Timed, SignedMIDITick};
use crate::actions::{ActionView, inverse_view, neg_i32s, neg_i8s};
use crate::note_action_spec::{
    NoteEditState, apply_note_spec, ints_as_usizes, length_step, length_fold, velocity_step, velocity_fold,
    channel_step, channel_fold,
};
use crate::timed_seq::{
    is_sorted, merge_spec, merge_positions, merge_takes_left, lemma_merge_step, lemma_merge_positions,
    lemma_merge_multiset, lemma_merge_sorted, lemma_merge_len,
};
use crate::note_sequence_funcs::{
    extract_from, extract_spec, lemma_extract_from_multiset, lemma_extract_from_sorted, remap_from,
};

verus! {

broadcast use vstd::seq_lib::group_seq_properties, vstd::seq_lib::group_to_multiset_ensures;

/// Strictly increasing times.
pub open spec fn is_strictly_sorted<T: Timed>(s: Seq<T>) -> bool {
    forall|i: int, j: int| 0 <= i < j < s.len() ==> s[i].time() < s[j].time()
}

/// A sorted sequence with the same items as a strictly sorted one is that
/// sequence.
pub proof fn lemma_sorted_permutation_unique<T: Timed>(a: Seq<T>, b: Seq<T>)
    requires
        is_strictly_sorted(a),
        is_sorted(b),
        a.to_multiset() == b.to_multiset(),
    ensures
        a == b,
    decreases a.len(),
{
    if a.len() == 0 {
        assert(a.to_multiset().len() == a.len());
        assert(b.to_multiset().len() == b.len());
        assert(b.to_multiset().len() == 0);
        assert(b =~= a);
    } else {
        assert(a.to_multiset().len() == a.len());
        assert(b.to_multiset().len() == b.len());
        assert(b.len() == a.len());
        assert(a.to_multiset().count(a[0]) > 0);
        assert(b.contains(a[0]));
        let j = choose|j: int| 0 <= j < b.len() && b[j] == a[0];
        assert(b.to_multiset().count(b[0]) > 0);
        assert(a.contains(b[0]));
        let i = choose|i: int| 0 <= i < a.len() && a[i] == b[0];
        assert(b[0].time() <= b[j].time());
        if i > 0 {
            assert(a[0].time() < a[i].time());
            assert(false);
        }
        assert(a[0] == b[0]);
        assert(a.remove(0) =~= a.drop_first());
        assert(b.remove(0) =~= b.drop_first());
        lemma_sorted_permutation_unique(a.drop_first(), b.drop_first());
        assert(a =~= b);
    }
}

/// Deleting notes and then undoing the deletion puts back the same notes: the
/// track is sorted again, holds the same notes as before, and the other
/// tracks are untouched. When no two notes of the track start together, the
/// track is exactly as before.
pub proof fn lemma_delete_then_undo(st: NoteEditState, ids: Seq<usize>, g: u16, carried: Option<Seq<Note>>)
    requires
        (g as int) < st.tracks.len(),
        st.tracks[g as int].len() <= usize::MAX,
        is_sorted(st.tracks[g as int]),
        remap_from(ids, st.selected, 0, 0) is Some,
    ensures
        ({
            let del = ActionView::DeleteNotes(ids, carried, g);
            let (st1, stored) = apply_note_spec(st, del).unwrap();
            let undo = inverse_view(stored);
            &&& apply_note_spec(st, del) is Some
            &&& apply_note_spec(st1, undo) is Some
            &&& ({
                let st2 = apply_note_spec(st1, undo).unwrap().0;
                &&& st2.tracks.len() == st.tracks.len()
                &&& is_sorted(st2.tracks[g as int])
                &&& st2.tracks[g as int].to_multiset() == st.tracks[g as int].to_multiset()
                &&& forall|j: int|
                    0 <= j < st.tracks.len() && j != g ==> #[trigger] st2.tracks[j] == st.tracks[j]
                &&& is_strictly_sorted(st.tracks[g as int]) ==> st2.tracks[g as int]
                    == st.tracks[g as int]
            })
        }),
{
    let n = st.tracks[g as int];
    let (deleted, kept) = extract_spec(n, ids);
    lemma_extract_from_multiset(n, ids, 0, 0);
    lemma_extract_from_sorted(n, ids, 0, 0, if n.len() > 0 {
        n[0].time()
    } else {
        0
    });
    assert(n.skip(0) =~= n);
    lemma_merge_multiset(kept, deleted);
    lemma_merge_sorted(kept, deleted);
    lemma_merge_len(kept, deleted);
    let merged = merge_spec(kept, deleted);
    assert(merged.to_multiset() =~= n.to_multiset());
    if is_strictly_sorted(n) {
        lemma_sorted_permutation_unique(n, merged);
    }
}

/// Extracting from an item put in front of `s`, with every index one
/// higher, is extracting from `s`.
proof fn lemma_extract_shift<T>(x: T, s: Seq<T>, ids: Seq<usize>, ids2: Seq<usize>, k: int, p: int, p2: int)
    requires
        0 <= k <= s.len(),
        0 <= p <= ids.len(),
        0 <= p2,
        ids2.len() - p2 == ids.len() - p,
        forall|j: int| p <= j < ids.len() ==> ids2[j - p + p2] == #[trigger] ids[j] + 1,
    ensures
        extract_from(seq![x] + s, ids2, k + 1, p2) == extract_from(s, ids, k, p),
    decreases s.len() - k,
{
    let s2 = seq![x] + s;
    if k < s.len() {
        assert(s2[k + 1] == s[k]);
        if p < ids.len() {
            assert(ids2[p - p + p2] == ids[p] + 1);
        }
        let hit = 0 <= p < ids.len() && ids[p] == k;
        let np = if hit { p + 1 } else { p };
        let np2 = if hit { p2 + 1 } else { p2 };
        assert forall|j: int| np <= j < ids.len() implies ids2[j - np + np2] == #[trigger] ids[j] + 1 by {
            assert(j - np + np2 == j - p + p2);
        }
        lemma_extract_shift(x, s, ids, ids2, k + 1, np, np2);
    }
}

/// Taking out of a merge the items at the positions where the second
/// sequence's items went gives back both sequences.
proof fn lemma_extract_merge<T: Timed>(a: Seq<T>, b: Seq<T>)
    requires
        a.len() + b.len() <= usize::MAX,
    ensures
        extract_spec(merge_spec(a, b), ints_as_usizes(merge_positions(a, b))) == (b, a),
    decreases a.len() + b.len(),
{
    let m = merge_spec(a, b);
    let pos = ints_as_usizes(merge_positions(a, b));
    lemma_merge_len(a, b);
    if a.len() + b.len() == 0 {
        assert(a =~= Seq::<T>::empty());
        assert(b =~= Seq::<T>::empty());
    } else {
        lemma_merge_step(a, b);
        if merge_takes_left(a, b) {
            let a1 = a.drop_first();
            let m1 = merge_spec(a1, b);
            let p1 = merge_positions(a1, b);
            let pos1 = ints_as_usizes(p1);
            lemma_merge_positions(a1, b);
            lemma_merge_len(a1, b);
            lemma_extract_merge(a1, b);
            assert forall|j: int| 0 <= j < pos1.len() implies pos[j - 0 + 0] == #[trigger] pos1[j] + 1 by {
                assert(0 <= p1[j] < a1.len() + b.len());
            }
            lemma_extract_shift(a[0], m1, pos1, pos, 0, 0, 0);
            if pos.len() > 0 {
                assert(0 <= p1[0] < a1.len() + b.len());
                assert(pos[0] != 0);
            }
            assert(a =~= seq![a[0]] + a1);
        } else {
            let b1 = b.drop_first();
            let m1 = merge_spec(a, b1);
            let p1 = merge_positions(a, b1);
            let pos1 = ints_as_usizes(p1);
            lemma_merge_positions(a, b1);
            lemma_merge_len(a, b1);
            lemma_extract_merge(a, b1);
            assert forall|j: int| 0 <= j < pos1.len() implies pos[j - 0 + 1] == #[trigger] pos1[j] + 1 by {
                assert(0 <= p1[j] < a.len() + b1.len());
            }
            lemma_extract_shift(b[0], m1, pos1, pos, 0, 0, 1);
            assert(pos[0] == 0);
            assert(b =~= seq![b[0]] + b1);
        }
    }
}

/// Placing notes in a track and then undoing it takes the same notes out
/// again: the tracks are as before, and the undo keeps the notes so that a
/// redo can place them again.
pub proof fn lemma_place_then_undo(st: NoteEditState, notes: Seq<Note>, g: u16)
    requires
        (g as int) < st.tracks.len(),
        st.tracks[g as int].len() + notes.len() <= usize::MAX,
        remap_from(ints_as_usizes(merge_positions(st.tracks[g as int], notes)), st.selected, 0, 0) is Some,
    ensures
        ({
            let ids = ints_as_usizes(merge_positions(st.tracks[g as int], notes));
            let place = ActionView::PlaceNotes(ids, Some(notes), g);
            let (st1, stored) = apply_note_spec(st, place).unwrap();
            let undo = inverse_view(stored);
            &&& apply_note_spec(st, place) is Some
            &&& apply_note_spec(st1, undo) is Some
            &&& apply_note_spec(st1, undo).unwrap().0.tracks == st.tracks
            &&& apply_note_spec(st1, undo).unwrap().1 == ActionView::DeleteNotes(ids, Some(notes), g)
        }),
{
    let t = st.tracks[g as int];
    lemma_extract_merge(t, notes);
    let st1 = apply_note_spec(st, ActionView::PlaceNotes(ints_as_usizes(merge_positions(t, notes)), Some(notes), g)).unwrap().0;
    assert(st1.tracks.update(g as int, t) =~= st.tracks);
}

/// No index occurs twice among `ids[i..]`.
pub open spec fn distinct_from(ids: Seq<usize>, i: int) -> bool {
    forall|k1: int, k2: int| i <= k1 < k2 < ids.len() ==> #[trigger] ids[k1] != #[trigger] ids[k2]
}

/// A length change whose note length lies in 1..=i32::MAX is undone by the
/// negated change it reports.
proof fn lemma_length_step_back(n: Note, dd: SignedMIDITick)
    requires
        1 <= n.length <= i32::MAX,
    ensures
        length_step(n, dd) is Some,
        ({
            let (n2, a) = length_step(n, dd).unwrap();
            &&& 1 <= n2.length <= i32::MAX
            &&& length_step(n2, (-a) as i32) == Some((n, (-a) as i32))
        }),
{
}

/// With distinct ids, folding length changes from `i` changes each note at
/// `ids[k]` (k >= i) by its own step, leaves the other notes alone and
/// reports each step's change.
proof fn lemma_length_fold_each(notes: Seq<Note>, ids: Seq<usize>, d: Seq<SignedMIDITick>, i: int)
    requires
        0 <= i <= ids.len(),
        ids.len() <= d.len(),
        distinct_from(ids, i),
        forall|k: int| i <= k < ids.len() ==> (#[trigger] ids[k] as int) < notes.len(),
        forall|k: int| i <= k < ids.len() ==> length_step(notes[#[trigger] ids[k] as int], d[k]) is Some,
    ensures
        length_fold(notes, ids, d, i) is Some,
        ({
            let (n2, d2) = length_fold(notes, ids, d, i).unwrap();
            &&& n2.len() == notes.len()
            &&& d2.len() == d.len()
            &&& forall|k: int| i <= k < ids.len() ==> n2[#[trigger] ids[k] as int] == length_step(notes[ids[k] as int], d[k]).unwrap().0
            &&& forall|k: int| i <= k < ids.len() ==> #[trigger] d2[k] == length_step(notes[ids[k] as int], d[k]).unwrap().1
            &&& forall|k: int| 0 <= k < d.len() && !(i <= k < ids.len()) ==> #[trigger] d2[k] == d[k]
            &&& forall|x: int| 0 <= x < notes.len() && (forall|k: int| i <= k < ids.len() ==> #[trigger] ids[k] != x) ==> #[trigger] n2[x] == notes[x]
        }),
    decreases ids.len() - i,
{
    if i < ids.len() {
        let (nn, a) = length_step(notes[ids[i] as int], d[i]).unwrap();
        let notes1 = notes.update(ids[i] as int, nn);
        let d1 = d.update(i, a);
        assert forall|k: int| i + 1 <= k < ids.len() implies length_step(notes1[#[trigger] ids[k] as int], d1[k]) is Some by {
            assert(ids[i] != ids[k]);
        }
        lemma_length_fold_each(notes1, ids, d1, i + 1);
        let (n2, d2) = length_fold(notes1, ids, d1, i + 1).unwrap();
        assert forall|k: int| i <= k < ids.len() implies n2[#[trigger] ids[k] as int] == length_step(notes[ids[k] as int], d[k]).unwrap().0 by {
            if k == i {
                assert forall|k2: int| i + 1 <= k2 < ids.len() implies #[trigger] ids[k2] != ids[i] as int by {
                    assert(ids[i] != ids[k2]);
                }
            } else {
                assert(ids[i] != ids[k]);
            }
        }
        assert forall|x: int| 0 <= x < notes.len() && (forall|k: int| i <= k < ids.len() ==> #[trigger] ids[k] != x) implies #[trigger] n2[x] == notes[x] by {
            assert(ids[i] != x);
        }
    }
}

/// Changing note lengths and then undoing the change gives back the notes,
/// and the undo keeps the change it undid, for distinct notes whose lengths
/// lie in 1..=i32::MAX (a length of 0 comes back as 1, and longer lengths
/// are read as negative ones).
pub proof fn lemma_length_change_then_undo(st: NoteEditState, ids: Seq<usize>, d: Seq<SignedMIDITick>, g: u16)
    requires
        (g as int) < st.tracks.len(),
        ids.len() <= d.len(),
        distinct_from(ids, 0),
        forall|k: int| 0 <= k < ids.len() ==> (#[trigger] ids[k] as int) < st.tracks[g as int].len(),
        forall|k: int| 0 <= k < ids.len() ==> 1 <= st.tracks[g as int][#[trigger] ids[k] as int].length <= i32::MAX,
    ensures
        ({
            let change = ActionView::LengthChange(ids, d, g);
            let (st1, stored) = apply_note_spec(st, change).unwrap();
            let undo = inverse_view(stored);
            &&& apply_note_spec(st, change) is Some
            &&& apply_note_spec(st1, undo) is Some
            &&& apply_note_spec(st1, undo).unwrap().0 == st
            &&& apply_note_spec(st1, undo).unwrap().1 == undo
        }),
{
    let t = st.tracks[g as int];
    assert forall|k: int| 0 <= k < ids.len() implies length_step(t[#[trigger] ids[k] as int], d[k]) is Some by {
        lemma_length_step_back(t[ids[k] as int], d[k]);
    }
    lemma_length_fold_each(t, ids, d, 0);
    let (n2, d2) = length_fold(t, ids, d, 0).unwrap();
    let nd = neg_i32s(d2);
    assert forall|k: int| 0 <= k < ids.len() implies length_step(n2[#[trigger] ids[k] as int], nd[k]) is Some by {
        lemma_length_step_back(t[ids[k] as int], d[k]);
    }
    lemma_length_fold_each(n2, ids, nd, 0);
    let (n3, d3) = length_fold(n2, ids, nd, 0).unwrap();
    assert forall|k: int| 0 <= k < ids.len() implies n3[#[trigger] ids[k] as int] == t[ids[k] as int] by {
        lemma_length_step_back(t[ids[k] as int], d[k]);
    }
    assert forall|x: int| 0 <= x < n3.len() implies #[trigger] n3[x] == t[x] by {
        if exists|k: int| 0 <= k < ids.len() && #[trigger] ids[k] == x {
            let k = choose|k: int| 0 <= k < ids.len() && #[trigger] ids[k] == x;
            assert(n3[ids[k] as int] == t[ids[k] as int]);
        } else {
            assert(n2[x] == t[x]);
        }
    }
    assert(n3 =~= t);
    assert forall|k: int| 0 <= k < d3.len() implies #[trigger] d3[k] == nd[k] by {
        if k < ids.len() {
            lemma_length_step_back(t[ids[k] as int], d[k]);
        }
    }
    assert(d3 =~= nd);
    let st1 = apply_note_spec(st, ActionView::LengthChange(ids, d, g)).unwrap().0;
    assert(st1.tracks.update(g as int, t) =~= st.tracks);
}

/// A velocity change whose note velocity lies in 1..=127 is undone by the
/// negated change it reports.
proof fn lemma_velocity_step_back(n: Note, dd: i8)
    requires
        1 <= n.velocity <= 127,
    ensures
        velocity_step(n, dd) is Some,
        ({
            let (n2, a) = velocity_step(n, dd).unwrap();
            &&& 1 <= n2.velocity <= 127
            &&& velocity_step(n2, (-a) as i8) == Some((n, (-a) as i8))
        }),
{
}

/// With distinct ids, folding velocity changes from `i` changes each note at
/// `ids[k]` (k >= i) by its own step, leaves the other notes alone and
/// reports each step's change.
proof fn lemma_velocity_fold_each(notes: Seq<Note>, ids: Seq<usize>, d: Seq<i8>, i: int)
    requires
        0 <= i <= ids.len(),
        ids.len() <= d.len(),
        distinct_from(ids, i),
        forall|k: int| i <= k < ids.len() ==> (#[trigger] ids[k] as int) < notes.len(),
        forall|k: int| i <= k < ids.len() ==> velocity_step(notes[#[trigger] ids[k] as int], d[k]) is Some,
    ensures
        velocity_fold(notes, ids, d, i) is Some,
        ({
            let (n2, d2) = velocity_fold(notes, ids, d, i).unwrap();
            &&& n2.len() == notes.len()
            &&& d2.len() == d.len()
            &&& forall|k: int| i <= k < ids.len() ==> n2[#[trigger] ids[k] as int] == velocity_step(notes[ids[k] as int], d[k]).unwrap().0
            &&& forall|k: int| i <= k < ids.len() ==> #[trigger] d2[k] == velocity_step(notes[ids[k] as int], d[k]).unwrap().1
            &&& forall|k: int| 0 <= k < d.len() && !(i <= k < ids.len()) ==> #[trigger] d2[k] == d[k]
            &&& forall|x: int| 0 <= x < notes.len() && (forall|k: int| i <= k < ids.len() ==> #[trigger] ids[k] != x) ==> #[trigger] n2[x] == notes[x]
        }),
    decreases ids.len() - i,
{
    if i < ids.len() {
        let (nn, a) = velocity_step(notes[ids[i] as int], d[i]).unwrap();
        let notes1 = notes.update(ids[i] as int, nn);
        let d1 = d.update(i, a);
        assert forall|k: int| i + 1 <= k < ids.len() implies velocity_step(notes1[#[trigger] ids[k] as int], d1[k]) is Some by {
            assert(ids[i] != ids[k]);
        }
        lemma_velocity_fold_each(notes1, ids, d1, i + 1);
        let (n2, d2) = velocity_fold(notes1, ids, d1, i + 1).unwrap();
        assert forall|k: int| i <= k < ids.len() implies n2[#[trigger] ids[k] as int] == velocity_step(notes[ids[k] as int], d[k]).unwrap().0 by {
            if k == i {
                assert forall|k2: int| i + 1 <= k2 < ids.len() implies #[trigger] ids[k2] != ids[i] as int by {
                    assert(ids[i] != ids[k2]);
                }
            } else {
                assert(ids[i] != ids[k]);
            }
        }
        assert forall|x: int| 0 <= x < notes.len() && (forall|k: int| i <= k < ids.len() ==> #[trigger] ids[k] != x) implies #[trigger] n2[x] == notes[x] by {
            assert(ids[i] != x);
        }
    }
}

/// Changing note velocities and then undoing the change gives back the
/// notes, and the undo keeps the change it undid, for distinct notes whose
/// velocities lie in 1..=127 (a velocity of 0 comes back as 1).
pub proof fn lemma_velocity_change_then_undo(st: NoteEditState, ids: Seq<usize>, d: Seq<i8>, g: u16)
    requires
        (g as int) < st.tracks.len(),
        ids.len() <= d.len(),
        distinct_from(ids, 0),
        forall|k: int| 0 <= k < ids.len() ==> (#[trigger] ids[k] as int) < st.tracks[g as int].len(),
        forall|k: int| 0 <= k < ids.len() ==> 1 <= st.tracks[g as int][#[trigger] ids[k] as int].velocity <= 127,
    ensures
        ({
            let change = ActionView::VelocityChange(ids, d, g);
            let (st1, stored) = apply_note_spec(st, change).unwrap();
            let undo = inverse_view(stored);
            &&& apply_note_spec(st, change) is Some
            &&& apply_note_spec(st1, undo) is Some
            &&& apply_note_spec(st1, undo).unwrap().0 == st
            &&& apply_note_spec(st1, undo).unwrap().1 == undo
        }),
{
    let t = st.tracks[g as int];
    assert forall|k: int| 0 <= k < ids.len() implies velocity_step(t[#[trigger] ids[k] as int], d[k]) is Some by {
        lemma_velocity_step_back(t[ids[k] as int], d[k]);
    }
    lemma_velocity_fold_each(t, ids, d, 0);
    let (n2, d2) = velocity_fold(t, ids, d, 0).unwrap();
    let nd = neg_i8s(d2);
    assert forall|k: int| 0 <= k < ids.len() implies velocity_step(n2[#[trigger] ids[k] as int], nd[k]) is Some by {
        lemma_velocity_step_back(t[ids[k] as int], d[k]);
    }
    lemma_velocity_fold_each(n2, ids, nd, 0);
    let (n3, d3) = velocity_fold(n2, ids, nd, 0).unwrap();
    assert forall|k: int| 0 <= k < ids.len() implies n3[#[trigger] ids[k] as int] == t[ids[k] as int] by {
        lemma_velocity_step_back(t[ids[k] as int], d[k]);
    }
    assert forall|x: int| 0 <= x < n3.len() implies #[trigger] n3[x] == t[x] by {
        if exists|k: int| 0 <= k < ids.len() && #[trigger] ids[k] == x {
            let k = choose|k: int| 0 <= k < ids.len() && #[trigger] ids[k] == x;
            assert(n3[ids[k] as int] == t[ids[k] as int]);
        } else {
            assert(n2[x] == t[x]);
        }
    }
    assert(n3 =~= t);
    assert forall|k: int| 0 <= k < d3.len() implies #[trigger] d3[k] == nd[k] by {
        if k < ids.len() {
            lemma_velocity_step_back(t[ids[k] as int], d[k]);
        }
    }
    assert(d3 =~= nd);
    let st1 = apply_note_spec(st, ActionView::VelocityChange(ids, d, g)).unwrap().0;
    assert(st1.tracks.update(g as int, t) =~= st.tracks);
}

/// A channel change on a note of channel 0..=15 whose sum stays a signed
/// byte is undone by the negated change it reports.
proof fn lemma_channel_step_back(n: Note, dd: i8)
    requires
        n.channel <= 15,
        i8::MIN <= n.channel + dd <= i8::MAX,
    ensures
        channel_step(n, dd) is Some,
        ({
            let (n2, a) = channel_step(n, dd).unwrap();
            &&& n2.channel <= 15
            &&& channel_step(n2, (-a) as i8) == Some((n, (-a) as i8))
        }),
{
}

/// With distinct ids, folding channel changes from `i` changes each note at
/// `ids[k]` (k >= i) by its own step, leaves the other notes alone and
/// reports each step's change.
proof fn lemma_channel_fold_each(notes: Seq<Note>, ids: Seq<usize>, d: Seq<i8>, i: int)
    requires
        0 <= i <= ids.len(),
        ids.len() <= d.len(),
        distinct_from(ids, i),
        forall|k: int| i <= k < ids.len() ==> (#[trigger] ids[k] as int) < notes.len(),
        forall|k: int| i <= k < ids.len() ==> channel_step(notes[#[trigger] ids[k] as int], d[k]) is Some,
    ensures
        channel_fold(notes, ids, d, i) is Some,
        ({
            let (n2, d2) = channel_fold(notes, ids, d, i).unwrap();
            &&& n2.len() == notes.len()
            &&& d2.len() == d.len()
            &&& forall|k: int| i <= k < ids.len() ==> n2[#[trigger] ids[k] as int] == channel_step(notes[ids[k] as int], d[k]).unwrap().0
            &&& forall|k: int| i <= k < ids.len() ==> #[trigger] d2[k] == channel_step(notes[ids[k] as int], d[k]).unwrap().1
            &&& forall|k: int| 0 <= k < d.len() && !(i <= k < ids.len()) ==> #[trigger] d2[k] == d[k]
            &&& forall|x: int| 0 <= x < notes.len() && (forall|k: int| i <= k < ids.len() ==> #[trigger] ids[k] != x) ==> #[trigger] n2[x] == notes[x]
        }),
    decreases ids.len() - i,
{
    if i < ids.len() {
        let (nn, a) = channel_step(notes[ids[i] as int], d[i]).unwrap();
        let notes1 = notes.update(ids[i] as int, nn);
        let d1 = d.update(i, a);
        assert forall|k: int| i + 1 <= k < ids.len() implies channel_step(notes1[#[trigger] ids[k] as int], d1[k]) is Some by {
            assert(ids[i] != ids[k]);
        }
        lemma_channel_fold_each(notes1, ids, d1, i + 1);
        let (n2, d2) = channel_fold(notes1, ids, d1, i + 1).unwrap();
        assert forall|k: int| i <= k < ids.len() implies n2[#[trigger] ids[k] as int] == channel_step(notes[ids[k] as int], d[k]).unwrap().0 by {
            if k == i {
                assert forall|k2: int| i + 1 <= k2 < ids.len() implies #[trigger] ids[k2] != ids[i] as int by {
                    assert(ids[i] != ids[k2]);
                }
            } else {
                assert(ids[i] != ids[k]);
            }
        }
        assert forall|x: int| 0 <= x < notes.len() && (forall|k: int| i <= k < ids.len() ==> #[trigger] ids[k] != x) implies #[trigger] n2[x] == notes[x] by {
            assert(ids[i] != x);
        }
    }
}

/// Changing note channels and then undoing the change gives back the notes,
/// and the undo keeps the change it undid, for distinct notes on channels
/// 0..=15 where each sum of channel and change stays a signed byte (where it
/// does not, the change is refused).
pub proof fn lemma_channel_change_then_undo(st: NoteEditState, ids: Seq<usize>, d: Seq<i8>, g: u16)
    requires
        (g as int) < st.tracks.len(),
        ids.len() <= d.len(),
        distinct_from(ids, 0),
        forall|k: int| 0 <= k < ids.len() ==> (#[trigger] ids[k] as int) < st.tracks[g as int].len(),
        forall|k: int| 0 <= k < ids.len() ==> st.tracks[g as int][#[trigger] ids[k] as int].channel <= 15,
        forall|k: int| 0 <= k < ids.len() ==> i8::MIN <= st.tracks[g as int][#[trigger] ids[k] as int].channel + d[k] <= i8::MAX,
    ensures
        ({
            let change = ActionView::ChannelChange(ids, d, g);
            let (st1, stored) = apply_note_spec(st, change).unwrap();
            let undo = inverse_view(stored);
            &&& apply_note_spec(st, change) is Some
            &&& apply_note_spec(st1, undo) is Some
            &&& apply_note_spec(st1, undo).unwrap().0 == st
            &&& apply_note_spec(st1, undo).unwrap().1 == undo
        }),
{
    let t = st.tracks[g as int];
    assert forall|k: int| 0 <= k < ids.len() implies channel_step(t[#[trigger] ids[k] as int], d[k]) is Some by {
        lemma_channel_step_back(t[ids[k] as int], d[k]);
    }
    lemma_channel_fold_each(t, ids, d, 0);
    let (n2, d2) = channel_fold(t, ids, d, 0).unwrap();
    let nd = neg_i8s(d2);
    assert forall|k: int| 0 <= k < ids.len() implies channel_step(n2[#[trigger] ids[k] as int], nd[k]) is Some by {
        lemma_channel_step_back(t[ids[k] as int], d[k]);
    }
    lemma_channel_fold_each(n2, ids, nd, 0);
    let (n3, d3) = channel_fold(n2, ids, nd, 0).unwrap();
    assert forall|k: int| 0 <= k < ids.len() implies n3[#[trigger] ids[k] as int] == t[ids[k] as int] by {
        lemma_channel_step_back(t[ids[k] as int], d[k]);
    }
    assert forall|x: int| 0 <= x < n3.len() implies #[trigger] n3[x] == t[x] by {
        if exists|k: int| 0 <= k < ids.len() && #[trigger] ids[k] == x {
            let k = choose|k: int| 0 <= k < ids.len() && #[trigger] ids[k] == x;
            assert(n3[ids[k] as int] == t[ids[k] as int]);
        } else {
            assert(n2[x] == t[x]);
        }
    }
    assert(n3 =~= t);
    assert forall|k: int| 0 <= k < d3.len() implies #[trigger] d3[k] == nd[k] by {
        if k < ids.len() {
            lemma_channel_step_back(t[ids[k] as int], d[k]);
        }
    }
    assert(d3 =~= nd);
    let st1 = apply_note_spec(st, ActionView::ChannelChange(ids, d, g)).unwrap().0;
    assert(st1.tracks.update(g as int, t) =~= st.tracks);
}

} // verus!
