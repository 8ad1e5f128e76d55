use vstd::prelude::*;
use vstd::seq_lib::lemma_multiset_commutative;
use vstd::multiset::Multiset;
use crate::midi_types::{Timed, Note, MIDITick, SignedMIDITick};
use crate::timed_seq::{is_sorted, all_at_least, reversed, merge_spec, merge_positions, merge_timed, usizes_as_ints};

verus! {

broadcast use vstd::seq_lib::group_seq_properties, vstd::seq_lib::group_to_multiset_ensures;

/// Walks `src` from index `k` with a cursor `p` into `ids`: an item whose
/// index equals `ids[p]` is extracted (and the cursor moves on), any other item
/// is kept. Returns (extracted, kept).
pub open spec fn extract_from<T>(src: Seq<T>, ids: Seq<usize>, k: int, p: int) -> (Seq<T>, Seq<T>)
    decreases src.len() - k,
{
    if k < 0 || k >= src.len() {
        (Seq::empty(), Seq::empty())
    } else {
        let hit = 0 <= p < ids.len() && ids[p] == k;
        let rest = extract_from(src, ids, k + 1, if hit { p + 1 } else { p });
        if hit {
            (seq![src[k]] + rest.0, rest.1)
        } else {
            (rest.0, seq![src[k]] + rest.1)
        }
    }
}

pub open spec fn extract_spec<T>(src: Seq<T>, ids: Seq<usize>) -> (Seq<T>, Seq<T>) {
    extract_from(src, ids, 0, 0)
}

/// The indices are strictly increasing and below `n`.
pub open spec fn ids_valid(ids: Seq<usize>, n: int) -> bool {
    &&& forall|q: int| 0 <= q < ids.len() ==> #[trigger] ids[q] < n
    &&& forall|q1: int, q2: int| 0 <= q1 < q2 < ids.len() ==> ids[q1] < ids[q2]
}

/// Every item goes to exactly one side.
pub proof fn lemma_extract_from_multiset<T>(src: Seq<T>, ids: Seq<usize>, k: int, p: int)
    requires
        0 <= k <= src.len(),
    ensures
        src.skip(k).to_multiset() == extract_from(src, ids, k, p).0.to_multiset().add(
            extract_from(src, ids, k, p).1.to_multiset(),
        ),
        extract_from(src, ids, k, p).0.len() + extract_from(src, ids, k, p).1.len() == src.len()
            - k,
    decreases src.len() - k,
{
    if k == src.len() {
        assert(src.skip(k) =~= Seq::<T>::empty());
        assert(src.skip(k).to_multiset() =~= Multiset::empty());
    } else {
        let hit = 0 <= p < ids.len() && ids[p] == k;
        let np = if hit { p + 1 } else { p };
        lemma_extract_from_multiset(src, ids, k + 1, np);
        let rest = extract_from(src, ids, k + 1, np);
        assert(src.skip(k) =~= seq![src[k]] + src.skip(k + 1));
        lemma_multiset_commutative(seq![src[k]], src.skip(k + 1));
        if hit {
            lemma_multiset_commutative(seq![src[k]], rest.0);
        } else {
            lemma_multiset_commutative(seq![src[k]], rest.1);
        }
        assert(src.skip(k).to_multiset() =~= extract_from(src, ids, k, p).0.to_multiset().add(
            extract_from(src, ids, k, p).1.to_multiset(),
        ));
    }
}

/// With no ids, nothing is extracted and everything is kept.
pub proof fn lemma_extract_nothing<T>(src: Seq<T>, ids: Seq<usize>)
    requires
        ids.len() == 0,
    ensures
        extract_spec(src, ids).0 == Seq::<T>::empty(),
        extract_spec(src, ids).1 == src,
{
    lemma_extract_nothing_from(src, ids, 0, 0);
    assert(src.skip(0) =~= src);
}

proof fn lemma_extract_nothing_from<T>(src: Seq<T>, ids: Seq<usize>, k: int, p: int)
    requires
        0 <= k <= src.len(),
        ids.len() == 0,
    ensures
        extract_from(src, ids, k, p).0 == Seq::<T>::empty(),
        extract_from(src, ids, k, p).1 == src.skip(k),
    decreases src.len() - k,
{
    if k < src.len() {
        lemma_extract_nothing_from(src, ids, k + 1, p);
        assert(src.skip(k) =~= seq![src[k]] + src.skip(k + 1));
    } else {
        assert(src.skip(k) =~= Seq::<T>::empty());
    }
}

/// Both sides keep the order of `src`, so they are sorted when `src` is.
pub proof fn lemma_extract_from_sorted<T: Timed>(
    src: Seq<T>,
    ids: Seq<usize>,
    k: int,
    p: int,
    lo: int,
)
    requires
        0 <= k <= src.len(),
        is_sorted(src),
        k < src.len() ==> src[k].time() >= lo,
    ensures
        is_sorted(extract_from(src, ids, k, p).0),
        is_sorted(extract_from(src, ids, k, p).1),
        all_at_least(extract_from(src, ids, k, p).0, lo),
        all_at_least(extract_from(src, ids, k, p).1, lo),
    decreases src.len() - k,
{
    if k < src.len() {
        let hit = 0 <= p < ids.len() && ids[p] == k;
        let np = if hit { p + 1 } else { p };
        lemma_extract_from_sorted(src, ids, k + 1, np, src[k].time());
        let rest = extract_from(src, ids, k + 1, np);
        let r = extract_from(src, ids, k, p);
        if hit {
            assert forall|i: int, j: int| 0 <= i <= j < r.0.len() implies r.0[i].time()
                <= r.0[j].time() by {
                if i > 0 {
                    assert(r.0[i] == rest.0[i - 1]);
                }
                if j > 0 {
                    assert(r.0[j] == rest.0[j - 1]);
                }
            }
            assert forall|i: int| 0 <= i < r.0.len() implies r.0[i].time() >= lo by {
                if i > 0 {
                    assert(r.0[i] == rest.0[i - 1]);
                }
            }
        } else {
            assert forall|i: int, j: int| 0 <= i <= j < r.1.len() implies r.1[i].time()
                <= r.1[j].time() by {
                if i > 0 {
                    assert(r.1[i] == rest.1[i - 1]);
                }
                if j > 0 {
                    assert(r.1[j] == rest.1[j - 1]);
                }
            }
            assert forall|i: int| 0 <= i < r.1.len() implies r.1[i].time() >= lo by {
                if i > 0 {
                    assert(r.1[i] == rest.1[i - 1]);
                }
            }
        }
    }
}

/// With strictly increasing, in-range indices, the extracted items are exactly
/// `src[ids[0]], src[ids[1]], ...`.
pub proof fn lemma_extract_from_valid_ids<T>(src: Seq<T>, ids: Seq<usize>, k: int, p: int)
    requires
        0 <= k <= src.len(),
        0 <= p <= ids.len(),
        ids_valid(ids, src.len() as int),
        forall|q: int| p <= q < ids.len() ==> k <= #[trigger] ids[q],
    ensures
        extract_from(src, ids, k, p).0.len() == ids.len() - p,
        forall|q: int|
            0 <= q < ids.len() - p ==> #[trigger] extract_from(src, ids, k, p).0[q]
                == src[ids[p + q] as int],
    decreases src.len() - k,
{
    if k < src.len() {
        let hit = 0 <= p < ids.len() && ids[p] == k;
        let np = if hit { p + 1 } else { p };
        lemma_extract_from_valid_ids(src, ids, k + 1, np);
        if !hit {
            assert forall|q: int| np <= q < ids.len() implies k + 1 <= #[trigger] ids[q] by {
                if q > p {
                    assert(ids[p] < ids[q]);
                }
            }
        }
        let r = extract_from(src, ids, k, p);
        let rest = extract_from(src, ids, k + 1, np);
        if hit {
            assert forall|q: int| 0 <= q < ids.len() - p implies #[trigger] r.0[q] == src[ids[p
                + q] as int] by {
                if q > 0 {
                    assert(r.0[q] == rest.0[q - 1]);
                }
            }
        }
    } else {
        if p < ids.len() {
            assert(ids[p] < src.len());
        }
    }
}

/// Removes the items at the indices `ids` from `src`.
/// Returns: 1) the items that were extracted; 2) `src` with those items removed.
pub fn extract<T>(src: Vec<T>, ids: &[usize]) -> (r: (Vec<T>, Vec<T>))
    ensures
        r.0@ == extract_spec(src@, ids@).0,
        r.1@ == extract_spec(src@, ids@).1,
{
    let ghost s = src@;
    let n = src.len();
    let mut rev = reversed(src);
    let mut extracted: Vec<T> = Vec::new();
    let mut new_arr: Vec<T> = Vec::new();
    let mut ids_idx: usize = 0;
    let mut id: usize = 0;
    proof {
        assert(s.skip(0) =~= s);
        assert(extracted@ + extract_spec(s, ids@).0 =~= extract_spec(s, ids@).0);
        assert(new_arr@ + extract_spec(s, ids@).1 =~= extract_spec(s, ids@).1);
    }
    while id < n
        invariant
            n == s.len(),
            id <= n,
            ids_idx <= ids@.len(),
            rev@ == s.skip(id as int).reverse(),
            extract_spec(s, ids@).0 == extracted@ + extract_from(
                s,
                ids@,
                id as int,
                ids_idx as int,
            ).0,
            extract_spec(s, ids@).1 == new_arr@ + extract_from(
                s,
                ids@,
                id as int,
                ids_idx as int,
            ).1,
        decreases n - id,
    {
        proof {
            crate::timed_seq::lemma_reverse_pop(s.skip(id as int));
            assert(s.skip(id as int).drop_first() =~= s.skip(id + 1));
        }
        let elem = rev.pop().unwrap();
        if ids_idx < ids.len() && ids[ids_idx] == id {
            extracted.push(elem);
            ids_idx += 1;
            proof {
                assert(extract_spec(s, ids@).0 =~= extracted@ + extract_from(
                    s,
                    ids@,
                    id + 1,
                    ids_idx as int,
                ).0);
            }
        } else {
            new_arr.push(elem);
            proof {
                assert(extract_spec(s, ids@).1 =~= new_arr@ + extract_from(
                    s,
                    ids@,
                    id + 1,
                    ids_idx as int,
                ).1);
            }
        }
        id += 1;
    }
    proof {
        assert(extracted@ =~= extract_spec(s, ids@).0);
        assert(new_arr@ =~= extract_spec(s, ids@).1);
    }
    (extracted, new_arr)
}


/// Removes the items at the indices `ids` from `src`, pairing each extracted
/// item, in order, with the next item of `arr`.
pub fn extract_with<T, U>(src: Vec<T>, ids: &[usize], arr: Vec<U>) -> (r: (Vec<(T, U)>, Vec<T>))
    requires
        ids@.len() == arr@.len(),
    ensures
        r.0@.len() == extract_spec(src@, ids@).0.len(),
        forall|q: int|
            0 <= q < r.0@.len() ==> #[trigger] r.0@[q] == (extract_spec(src@, ids@).0[q], arr@[q]),
        r.1@ == extract_spec(src@, ids@).1,
{
    let ghost s = src@;
    let ghost sarr = arr@;
    let ghost e = extract_spec(s, ids@).0;
    let n = src.len();
    let mut rev = reversed(src);
    let mut arr_rev = reversed(arr);
    let mut extracted: Vec<(T, U)> = Vec::new();
    let mut new_arr: Vec<T> = Vec::new();
    let mut ids_idx: usize = 0;
    let mut id: usize = 0;
    let ghost mut ext_items: Seq<T> = Seq::empty();
    proof {
        assert(s.skip(0) =~= s);
        assert(sarr.skip(0) =~= sarr);
        assert(new_arr@ + extract_spec(s, ids@).1 =~= extract_spec(s, ids@).1);
        assert(ext_items + e =~= e);
    }
    while id < n
        invariant
            n == s.len(),
            id <= n,
            e == extract_spec(s, ids@).0,
            ids_idx <= ids@.len(),
            ids@.len() == sarr.len(),
            extracted@.len() == ids_idx,
            ext_items.len() == ids_idx,
            rev@ == s.skip(id as int).reverse(),
            arr_rev@ == sarr.skip(ids_idx as int).reverse(),
            e == ext_items + extract_from(s, ids@, id as int, ids_idx as int).0,
            forall|q: int|
                0 <= q < ids_idx ==> #[trigger] extracted@[q] == (ext_items[q], sarr[q]),
            extract_spec(s, ids@).1 == new_arr@ + extract_from(
                s,
                ids@,
                id as int,
                ids_idx as int,
            ).1,
        decreases n - id,
    {
        proof {
            crate::timed_seq::lemma_reverse_pop(s.skip(id as int));
            assert(s.skip(id as int).drop_first() =~= s.skip(id + 1));
        }
        let elem = rev.pop().unwrap();
        if ids_idx < ids.len() && ids[ids_idx] == id {
            proof {
                crate::timed_seq::lemma_reverse_pop(sarr.skip(ids_idx as int));
                assert(sarr.skip(ids_idx as int).drop_first() =~= sarr.skip(ids_idx + 1));
            }
            let paired = arr_rev.pop().unwrap();
            extracted.push((elem, paired));
            proof {
                ext_items = ext_items.push(elem);
                assert(e =~= ext_items + extract_from(s, ids@, id + 1, ids_idx + 1).0);
            }
            ids_idx += 1;
        } else {
            new_arr.push(elem);
            proof {
                assert(extract_spec(s, ids@).1 =~= new_arr@ + extract_from(
                    s,
                    ids@,
                    id + 1,
                    ids_idx as int,
                ).1);
            }
        }
        id += 1;
    }
    proof {
        assert(new_arr@ =~= extract_spec(s, ids@).1);
        assert(e =~= ext_items);
    }
    (extracted, new_arr)
}

/// Moves the cursor `e` past every index of `ids` that is smaller than `id`.
pub open spec fn skip_smaller(ids: Seq<usize>, id: int, e: int) -> int
    decreases ids.len() - e,
{
    if e < 0 || e >= ids.len() || ids[e] >= id {
        e
    } else {
        skip_smaller(ids, id, e + 1)
    }
}

/// Remaps the indices `rm[q..]` (cursor `e` into `ids`) to where they land
/// once the items at `ids` are removed; removed indices are dropped. `None`
/// when a remapped index would fall below zero.
pub open spec fn remap_from(ids: Seq<usize>, rm: Seq<usize>, q: int, e: int) -> Option<Seq<usize>>
    decreases rm.len() - q,
{
    if q < 0 || q >= rm.len() {
        Some(Seq::empty())
    } else {
        let e2 = skip_smaller(ids, rm[q] as int, e);
        if 0 <= e2 < ids.len() && ids[e2] == rm[q] {
            remap_from(ids, rm, q + 1, e2 + 1)
        } else if rm[q] < e2 {
            None
        } else {
            match remap_from(ids, rm, q + 1, e2) {
                Some(t) => Some(seq![(rm[q] - e2) as usize] + t),
                None => None,
            }
        }
    }
}

pub proof fn lemma_skip_smaller_bounds(ids: Seq<usize>, id: int, e: int)
    requires
        0 <= e <= ids.len(),
    ensures
        e <= skip_smaller(ids, id, e) <= ids.len(),
        forall|x: int| e <= x < skip_smaller(ids, id, e) ==> #[trigger] ids[x] < id,
        skip_smaller(ids, id, e) < ids.len() ==> ids[skip_smaller(ids, id, e)] >= id,
    decreases ids.len() - e,
{
    if e < ids.len() && ids[e] < id {
        lemma_skip_smaller_bounds(ids, id, e + 1);
    }
}

/// Like [`extract`], but also remaps the indices `ids_to_remap` (for example a
/// selection) so that they keep pointing at the same items after the removal;
/// indices that were removed are dropped.
pub fn extract_and_remap_ids<T>(src: Vec<T>, ids: &[usize], ids_to_remap: Vec<usize>) -> (r: (
    Vec<T>,
    Vec<T>,
    Vec<usize>,
))
    requires
        remap_from(ids@, ids_to_remap@, 0, 0) is Some,
    ensures
        r.0@ == extract_spec(src@, ids@).0,
        r.1@ == extract_spec(src@, ids@).1,
        r.2@ == remap_from(ids@, ids_to_remap@, 0, 0)->0,
{
    let (extracted, new_arr) = extract(src, ids);
    let ghost rm = ids_to_remap@;
    let mut new_ids: Vec<usize> = Vec::new();
    let mut extract_idx: usize = 0;
    let mut q: usize = 0;
    proof {
        assert(new_ids@ + remap_from(ids@, rm, 0, 0)->0 =~= remap_from(ids@, rm, 0, 0)->0);
    }
    while q < ids_to_remap.len()
        invariant
            rm == ids_to_remap@,
            q <= rm.len(),
            extract_idx <= ids@.len(),
            remap_from(ids@, rm, q as int, extract_idx as int) is Some,
            remap_from(ids@, rm, 0, 0)->0 == new_ids@ + remap_from(
                ids@,
                rm,
                q as int,
                extract_idx as int,
            )->0,
        decreases rm.len() - q,
    {
        let id = ids_to_remap[q];
        let ghost e0 = extract_idx as int;
        while extract_idx < ids.len() && ids[extract_idx] < id
            invariant
                e0 <= extract_idx <= ids@.len(),
                skip_smaller(ids@, id as int, extract_idx as int) == skip_smaller(ids@, id as int, e0),
            decreases ids@.len() - extract_idx,
        {
            extract_idx += 1;
        }
        if extract_idx < ids.len() && id == ids[extract_idx] {
            extract_idx += 1;
        } else {
            new_ids.push(id - extract_idx);
            proof {
                assert(remap_from(ids@, rm, 0, 0)->0 =~= new_ids@ + remap_from(
                    ids@,
                    rm,
                    q + 1,
                    extract_idx as int,
                )->0);
            }
        }
        q += 1;
    }
    proof {
        assert(new_ids@ =~= remap_from(ids@, rm, 0, 0)->0);
    }
    (extracted, new_arr, new_ids)
}

/// The position at which stable insertion puts `x` into `t`: after every
/// item, scanning from the back, until one is not later than `x`.
pub open spec fn insert_pos<T: Timed>(t: Seq<T>, x: T) -> int
    decreases t.len(),
{
    if t.len() == 0 || t.last().time() <= x.time() {
        t.len() as int
    } else {
        insert_pos(t.drop_last(), x)
    }
}

pub open spec fn insert_sorted<T: Timed>(t: Seq<T>, x: T) -> Seq<T> {
    t.insert(insert_pos(t, x), x)
}

/// Stable sort by time (insertion sort: each item goes after every earlier
/// item that is not later than it).
pub open spec fn sort_spec<T: Timed>(s: Seq<T>) -> Seq<T>
    decreases s.len(),
{
    if s.len() == 0 {
        s
    } else {
        insert_sorted(sort_spec(s.drop_last()), s.last())
    }
}

pub proof fn lemma_insert_pos<T: Timed>(t: Seq<T>, x: T)
    requires
        is_sorted(t),
    ensures
        0 <= insert_pos(t, x) <= t.len(),
        forall|i: int| 0 <= i < insert_pos(t, x) ==> #[trigger] t[i].time() <= x.time(),
        forall|i: int| insert_pos(t, x) <= i < t.len() ==> #[trigger] t[i].time() > x.time(),
    decreases t.len(),
{
    if t.len() > 0 && t.last().time() > x.time() {
        lemma_insert_pos(t.drop_last(), x);
        let d = t.drop_last();
        assert forall|i: int| 0 <= i < insert_pos(t, x) implies #[trigger] t[i].time()
            <= x.time() by {
            assert(t[i] == d[i]);
        }
        assert forall|i: int| insert_pos(t, x) <= i < t.len() implies #[trigger] t[i].time()
            > x.time() by {
            if i < t.len() - 1 {
                assert(t[i] == d[i]);
            }
        }
    } else if t.len() > 0 {
        assert forall|i: int| 0 <= i < insert_pos(t, x) implies #[trigger] t[i].time()
            <= x.time() by {
            assert(t[i].time() <= t[t.len() - 1].time());
        }
    }
}

pub proof fn lemma_sort_spec<T: Timed>(s: Seq<T>)
    ensures
        is_sorted(sort_spec(s)),
        sort_spec(s).to_multiset() == s.to_multiset(),
        sort_spec(s).len() == s.len(),
    decreases s.len(),
{
    if s.len() > 0 {
        let t = sort_spec(s.drop_last());
        lemma_sort_spec(s.drop_last());
        let x = s.last();
        lemma_insert_pos(t, x);
        let r = insert_sorted(t, x);
        let p = insert_pos(t, x);
        assert forall|i: int, j: int| 0 <= i <= j < r.len() implies r[i].time()
            <= r[j].time() by {
            if i < p && j > p {
                assert(r[i] == t[i]);
                assert(r[j] == t[j - 1]);
            } else if i > p {
                assert(r[i] == t[i - 1]);
                assert(r[j] == t[j - 1]);
            } else if j < p {
                assert(r[i] == t[i]);
                assert(r[j] == t[j]);
            }
        }
        t.insert_ensures(p, x);
        assert(t.insert(p, x).to_multiset() =~= t.to_multiset().insert(x)) by {
            assert(t.insert(p, x) =~= t.take(p) + seq![x] + t.skip(p));
            assert(t =~= t.take(p) + t.skip(p));
            lemma_multiset_commutative(t.take(p) + seq![x], t.skip(p));
            lemma_multiset_commutative(t.take(p), seq![x]);
            lemma_multiset_commutative(t.take(p), t.skip(p));
        }
        assert(s =~= s.drop_last().push(x));
    }
}

/// Sorts `v` stably by time.
pub fn sort_by_time<T: Timed>(v: Vec<T>) -> (r: Vec<T>)
    ensures
        r@ == sort_spec(v@),
{
    let ghost s = v@;
    let n = v.len();
    let mut rev = reversed(v);
    let mut out: Vec<T> = Vec::new();
    let mut k: usize = 0;
    proof {
        assert(s.skip(0) =~= s);
        assert(s.take(0) =~= Seq::<T>::empty());
    }
    while k < n
        invariant
            n == s.len(),
            k <= n,
            rev@ == s.skip(k as int).reverse(),
            out@ == sort_spec(s.take(k as int)),
            out@.len() == k,
        decreases n - k,
    {
        proof {
            crate::timed_seq::lemma_reverse_pop(s.skip(k as int));
            assert(s.skip(k as int).drop_first() =~= s.skip(k + 1));
            lemma_sort_spec(s.take(k as int));
        }
        let x = rev.pop().unwrap();
        let t = x.get_time();
        let mut pos = out.len();
        while pos > 0 && out[pos - 1].get_time() > t
            invariant
                pos <= out@.len(),
                t as int == x.time(),
                insert_pos(out@.take(pos as int), x) == insert_pos(out@, x),
            decreases pos,
        {
            proof {
                assert(out@.take(pos as int).drop_last() =~= out@.take(pos - 1));
                assert(out@.take(pos as int).last() == out@[pos - 1]);
                assert(out@[pos - 1].time() > x.time());
            }
            pos -= 1;
        }
        proof {
            assert(insert_pos(out@.take(pos as int), x) == pos);
            assert(s.take(k + 1).drop_last() =~= s.take(k as int));
        }
        out.insert(pos, x);
        k += 1;
    }
    proof {
        assert(s.take(n as int) =~= s);
    }
    out
}


/// Removes and returns the note at `id`.
pub fn remove_note(src: &mut Vec<Note>, id: usize) -> (r: Note)
    requires
        id < old(src)@.len(),
    ensures
        r == old(src)@[id as int],
        final(src)@ == old(src)@.remove(id as int),
{
    src.remove(id)
}

/// Merges two note sequences stably by start (notes of `notes_1` first on
/// equal starts).
pub fn merge_notes(notes_1: Vec<Note>, notes_2: Vec<Note>) -> (r: Vec<Note>)
    requires
        notes_1@.len() + notes_2@.len() <= usize::MAX,
    ensures
        r@ == merge_spec(notes_1@, notes_2@),
{
    let (merged, _) = merge_timed(notes_1, notes_2);
    merged
}

/// Like [`merge_notes`], but also returns the index at which each note of
/// `notes_2` was placed.
pub fn merge_notes_and_return_ids(notes_1: Vec<Note>, notes_2: Vec<Note>) -> (r: (Vec<Note>, Vec<usize>))
    requires
        notes_1@.len() + notes_2@.len() <= usize::MAX,
    ensures
        r.0@ == merge_spec(notes_1@, notes_2@),
        usizes_as_ints(r.1@) == merge_positions(notes_1@, notes_2@),
{
    merge_timed(notes_1, notes_2)
}

impl Timed for (Note, (SignedMIDITick, i16)) {
    open spec fn time(&self) -> int {
        self.0.start as int
    }

    fn get_time(&self) -> (t: MIDITick) {
        self.0.start
    }
}

/// The start a note gets when moved by `dt` ticks (the start is read as a
/// signed tick; a negative result becomes zero).
pub open spec fn moved_start(start: MIDITick, dt: SignedMIDITick) -> int {
    let s = (start as i32) as int + dt as int;
    if s < 0 {
        0
    } else {
        s
    }
}

/// The key a note gets when moved by `dk` keys (kept within 0..=127).
pub open spec fn moved_key(key: u8, dk: i16) -> int {
    let k = key as int + dk as int;
    if k < 0 {
        0
    } else if k > 127 {
        127
    } else {
        k
    }
}

pub open spec fn move_note_spec(n: Note, d: (SignedMIDITick, i16)) -> Note {
    Note { start: moved_start(n.start, d.0) as u32, key: moved_key(n.key, d.1) as u8, ..n }
}

/// The change that moving `n` by `d` actually made, after clamping.
pub open spec fn applied_delta(n: Note, d: (SignedMIDITick, i16)) -> (SignedMIDITick, i16) {
    (
        (moved_start(n.start, d.0) - (n.start as i32) as int) as i32,
        (moved_key(n.key, d.1) - n.key as int) as i16,
    )
}

/// Moving `n` by `d` stays within the machine integers the computation uses.
pub open spec fn move_fits(n: Note, d: (SignedMIDITick, i16)) -> bool {
    &&& i32::MIN <= (n.start as i32) as int + d.0 as int <= i32::MAX
    &&& i32::MIN <= moved_start(n.start, d.0) - (n.start as i32) as int <= i32::MAX
    &&& n.key as int + d.1 as int <= i16::MAX
}

fn move_one(note: Note, dt_tick: SignedMIDITick, dt_key: i16) -> (r: (Note, (SignedMIDITick, i16)))
    requires
        move_fits(note, (dt_tick, dt_key)),
    ensures
        r == (move_note_spec(note, (dt_tick, dt_key)), applied_delta(note, (dt_tick, dt_key))),
{
    let mut note = note;
    let orig_start = note.start() as SignedMIDITick;
    let orig_key = note.key() as i16;

    let mut new_start = orig_start + dt_tick;
    if new_start < 0 {
        new_start = 0;
    }
    let mut new_key = orig_key + dt_key;
    if new_key < 0 {
        new_key = 0;
    } else if new_key > 127 {
        new_key = 127;
    }
    note.start = new_start as MIDITick;
    note.key = new_key as u8;

    let new_dt_tick = new_start - orig_start;
    let new_dt_key = new_key - orig_key;
    (note, (new_dt_tick, new_dt_key))
}

pub open spec fn move_each_spec(notes: Seq<Note>, dt_pos: Seq<(SignedMIDITick, i16)>) -> Seq<
    (Note, (SignedMIDITick, i16)),
> {
    let n = if notes.len() <= dt_pos.len() {
        notes.len()
    } else {
        dt_pos.len()
    };
    crate::note_sequence_funcs::sort_spec(
        Seq::new(n, |k: int| (move_note_spec(notes[k], dt_pos[k]), applied_delta(notes[k], dt_pos[k]))),
    )
}

/// Moves each note by its own delta (pairing notes and deltas in order),
/// returns the moved notes with the change actually applied, sorted stably by
/// start.
pub fn move_each_note_by(notes_with_ids: Vec<Note>, dt_pos: &[(SignedMIDITick, i16)]) -> (r: Vec<
    (Note, (SignedMIDITick, i16)),
>)
    requires
        forall|k: int|
            0 <= k < notes_with_ids@.len() && k < dt_pos@.len() ==> move_fits(
                #[trigger] notes_with_ids@[k],
                dt_pos@[k],
            ),
    ensures
        r@ == move_each_spec(notes_with_ids@, dt_pos@),
{
    let ghost notes = notes_with_ids@;
    let n = if notes_with_ids.len() <= dt_pos.len() {
        notes_with_ids.len()
    } else {
        dt_pos.len()
    };
    let mut tmp: Vec<(Note, (SignedMIDITick, i16))> = Vec::new();
    let mut k: usize = 0;
    while k < n
        invariant
            notes == notes_with_ids@,
            n <= notes.len(),
            n <= dt_pos@.len(),
            k <= n,
            tmp@.len() == k,
            forall|k: int|
                0 <= k < notes.len() && k < dt_pos@.len() ==> move_fits(
                    #[trigger] notes[k],
                    dt_pos@[k],
                ),
            forall|j: int|
                0 <= j < k ==> #[trigger] tmp@[j] == (
                    move_note_spec(notes[j], dt_pos@[j]),
                    applied_delta(notes[j], dt_pos@[j]),
                ),
        decreases n - k,
    {
        let (dt_tick, dt_key) = dt_pos[k];
        let moved = move_one(notes_with_ids[k], dt_tick, dt_key);
        tmp.push(moved);
        k += 1;
    }
    proof {
        let ghost target = Seq::new(
            n as nat,
            |k: int| (move_note_spec(notes[k], dt_pos@[k]), applied_delta(notes[k], dt_pos@[k])),
        );
        assert(tmp@ =~= target);
    }
    crate::note_sequence_funcs::sort_by_time(tmp)
}

pub open spec fn move_all_spec(notes: Seq<Note>, dt_pos: (SignedMIDITick, i16)) -> Seq<Note> {
    crate::note_sequence_funcs::sort_spec(
        Seq::new(notes.len(), |k: int| move_note_spec(notes[k], dt_pos)),
    )
}

/// Moves every note by the same delta, then sorts them stably by start.
pub fn move_all_notes_by(notes: Vec<Note>, dt_pos: (SignedMIDITick, i16)) -> (r: Vec<Note>)
    requires
        forall|k: int| 0 <= k < notes@.len() ==> move_fits(#[trigger] notes@[k], dt_pos),
    ensures
        r@ == move_all_spec(notes@, dt_pos),
{
    let (dt_tick, dt_key) = dt_pos;
    let mut tmp: Vec<Note> = Vec::new();
    let mut k: usize = 0;
    while k < notes.len()
        invariant
            k <= notes@.len(),
            tmp@.len() == k,
            forall|k: int| 0 <= k < notes@.len() ==> move_fits(#[trigger] notes@[k], dt_pos),
            dt_pos == (dt_tick, dt_key),
            forall|j: int| 0 <= j < k ==> #[trigger] tmp@[j] == move_note_spec(notes@[j], dt_pos),
        decreases notes@.len() - k,
    {
        let (moved, _) = move_one(notes[k], dt_tick, dt_key);
        tmp.push(moved);
        k += 1;
    }
    proof {
        assert(tmp@ =~= Seq::new(notes@.len(), |k: int| move_note_spec(notes@[k], dt_pos)));
    }
    crate::note_sequence_funcs::sort_by_time(tmp)
}

/// The item at the first of the given indices.
pub fn get_first_from_ids<'a, T>(arr: &'a [T], ids: &[usize]) -> (r: &'a T)
    requires
        ids@.len() > 0,
        (ids@[0] as int) < arr@.len(),
    ensures
        *r == arr@[ids@[0] as int],
{
    &arr[ids[0]]
}

} // verus!
