//! The track view's selector: boxes of ticks and tracks select notes in
//! several tracks at once, and the selection can be moved, copied, cut and
//! pasted across tracks.
use vstd::prelude::*;
use crate::midi_types::{Note, MIDITick, MIDITrack, SignedMIDITick};
use crate::note_queries::{notes_in_range_spec, range_scan_fits, get_notes_in_range};
use crate::note_editing_ops::{min_snap_spec, snap_spec};
use crate::note_tools::{snap_ok, snapped, signed_tick, EditorTool};
use crate::track_ops::{tracks_contents, switched_to, change_track};
use crate::shared_editing::{SharedSelectedNotes, SharedClipboard, strictly_increasing_usize, strictly_increasing_u16};
use crate::note_editing_ops::{notes_at, all_below};
use crate::actions::{EditorAction, EditorActions, ActionView, actions_view};
use crate::note_sequence_funcs::{extract, extract_spec, merge_notes_and_return_ids, lemma_extract_nothing, lemma_extract_from_multiset, lemma_extract_from_sorted};
use crate::note_action_spec::ints_as_usizes;
use crate::timed_seq::{merge_spec, merge_positions, usizes_as_ints, is_sorted, lemma_merge_multiset, lemma_merge_sorted, lemma_merge_len};
use crate::note_laws::{is_strictly_sorted, lemma_sorted_permutation_unique};

verus! {

pub const TRACK_EDIT_FLAGS_NONE: u16 = 0x0;
pub const TRACK_EDIT_MOUSE_OVER_UI: u16 = 0x1;
pub const TRACK_EDIT_MOUSE_DOWN_ON_UI: u16 = 0x2;
pub const TRACK_EDIT_SELECTION_MOVE: u16 = 0x4;
pub const TRACK_EDIT_ANY_DIALOG_OPEN: u16 = 0x8;
pub const TRACK_EDIT_SHIFT_DOWN: u16 = 0x100;

/// Where the mouse is in the track view (tick, track) and where it was
/// last pressed.
#[derive(Clone, Copy, PartialEq, Eq, Debug)]
pub struct TrackEditMouseInfo {
    pub mouse_midi_track_pos: (MIDITick, u16),
    pub last_mouse_click_pos: (MIDITick, u16),
}

/// The notes of each track.
pub open spec fn track_notes(tracks: Seq<MIDITrack>) -> Seq<Seq<Note>> {
    tracks.map_values(|t: MIDITrack| t.notes@)
}

/// The notes inside the ticks of a region, in each track from `trk` up to
/// (not including) `max_track`; tracks without such notes are left out.
pub open spec fn region_ids_from(tracks: Seq<Seq<Note>>, min_tick: MIDITick, max_tick: MIDITick, trk: int, max_track: int) -> Seq<(u16, Seq<usize>)>
    decreases max_track - trk,
{
    if trk >= max_track || trk < 0 || trk >= tracks.len() {
        Seq::empty()
    } else {
        let ids = notes_in_range_spec(tracks[trk], min_tick, max_tick, 0, 127, true);
        let rest = region_ids_from(tracks, min_tick, max_tick, trk + 1, max_track);
        if ids.len() > 0 {
            seq![(trk as u16, ids)] + rest
        } else {
            rest
        }
    }
}

/// The notes in a region (min tick, max tick, min track, max track with the
/// max track left out), per track; `None` for a region without ticks, above
/// the last track, or without notes.
pub open spec fn note_ids_in_region(tracks: Seq<Seq<Note>>, region: (MIDITick, MIDITick, u16, u16)) -> Option<Seq<(u16, Seq<usize>)>> {
    if region.0 == region.1 || region.2 as int >= tracks.len() {
        None
    } else {
        let r = region_ids_from(tracks, region.0, region.1, region.2 as int, region.3 as int);
        if r.len() == 0 { None } else { Some(r) }
    }
}

/// The notes of the tracks a region spans can be scanned for the region's
/// ticks: the ends the scan adds up are ticks.
pub open spec fn region_scannable(tracks: Seq<Seq<Note>>, min_tick: MIDITick, max_tick: MIDITick, min_track: int, max_track: int) -> bool {
    forall|k: int| min_track <= k < max_track && k < tracks.len() ==> range_scan_fits(#[trigger] tracks[k], min_tick, max_tick)
}

/// Per-track ids, by their views.
pub open spec fn ids_pairs_view(v: Seq<(u16, Vec<usize>)>) -> Seq<(u16, Seq<usize>)> {
    v.map_values(|p: (u16, Vec<usize>)| (p.0, p.1@))
}

/// The ids of the notes inside a region, per track (see
/// [`note_ids_in_region`]).
pub fn get_note_ids_in_region(tracks: &Vec<MIDITrack>, region: (MIDITick, MIDITick, u16, u16)) -> (r: Option<Vec<(u16, Vec<usize>)>>)
    requires
        region_scannable(track_notes(tracks@), region.0, region.1, region.2 as int, region.3 as int),
    ensures
        match r {
            Some(v) => note_ids_in_region(track_notes(tracks@), region) == Some(ids_pairs_view(v@)),
            None => note_ids_in_region(track_notes(tracks@), region) is None,
        },
{
    let (min_tick, max_tick, min_track, max_track) = region;
    if min_tick == max_tick {
        return None;
    }
    let ghost tn = track_notes(tracks@);
    if min_track as usize >= tracks.len() {
        return None;
    }
    let mut all_ids: Vec<(u16, Vec<usize>)> = Vec::new();
    let mut trk: u16 = min_track;
    proof {
        assert(ids_pairs_view(all_ids@) + region_ids_from(tn, min_tick, max_tick, trk as int, max_track as int) =~= region_ids_from(
            tn,
            min_tick,
            max_tick,
            min_track as int,
            max_track as int,
        ));
    }
    while trk < max_track
        invariant
            tn == track_notes(tracks@),
            min_track <= trk,
            region_scannable(tn, min_tick, max_tick, min_track as int, max_track as int),
            ids_pairs_view(all_ids@) + region_ids_from(tn, min_tick, max_tick, trk as int, max_track as int) == region_ids_from(
                tn,
                min_tick,
                max_tick,
                min_track as int,
                max_track as int,
            ),
        ensures
            trk >= max_track || trk as int >= tracks@.len(),
        decreases max_track - trk,
    {
        if trk as usize >= tracks.len() {
            break;
        }
        let ghost before = all_ids@;
        let track = &tracks[trk as usize].notes;
        assert(track@ == tn[trk as int]);
        if track.len() > 0 {
            let ids = get_notes_in_range(track, min_tick, max_tick, 0, 127, true);
            if ids.len() > 0 {
                all_ids.push((trk, ids));
                assert(ids_pairs_view(all_ids@) =~= ids_pairs_view(before).push((trk, ids@)));
            }
        } else {
            assert(notes_in_range_spec(tn[trk as int], min_tick, max_tick, 0, 127, true) =~= Seq::<usize>::empty());
        }
        proof {
            let rest = region_ids_from(tn, min_tick, max_tick, trk + 1, max_track as int);
            assert(ids_pairs_view(all_ids@) + rest =~= ids_pairs_view(before) + region_ids_from(
                tn,
                min_tick,
                max_tick,
                trk as int,
                max_track as int,
            ));
        }
        trk = trk + 1;
    }
    proof {
        assert(region_ids_from(tn, min_tick, max_tick, trk as int, max_track as int) =~= Seq::<(u16, Seq<usize>)>::empty());
        assert(ids_pairs_view(all_ids@) =~= region_ids_from(tn, min_tick, max_tick, min_track as int, max_track as int));
    }
    if all_ids.len() == 0 {
        return None;
    }
    Some(all_ids)
}

/// What picking up the selection of track `trk` splits its notes into:
/// the selected notes and the rest.
pub open spec fn picked(notes: Seq<Note>, sel: Map<u16, Seq<usize>>, trk: int) -> (Seq<Note>, Seq<Note>) {
    if sel.contains_key(trk as u16) {
        extract_spec(notes, sel[trk as u16])
    } else {
        (Seq::empty(), notes)
    }
}

/// The last track (left out) that a pick-up from `lo` to `hi` reaches.
pub open spec fn pick_end(n: int, hi: int) -> int {
    if hi < n { hi } else { n }
}

/// The ghost notes that picking up the selection in tracks `lo..hi` makes:
/// each track's selected notes, with the track.
pub open spec fn picked_ghosts(tn: Seq<Seq<Note>>, sel: Map<u16, Seq<usize>>, lo: int, hi: int) -> Seq<(u16, Seq<Note>)> {
    let end = pick_end(tn.len() as int, hi);
    Seq::new(if end > lo { (end - lo) as nat } else { 0 }, |i: int| ((lo + i) as u16, picked(tn[lo + i], sel, lo + i).0))
}

/// The tracks' notes once the selection in tracks `lo..hi` is picked up.
pub open spec fn picked_tracks(tn: Seq<Seq<Note>>, sel: Map<u16, Seq<usize>>, lo: int, hi: int) -> Seq<Seq<Note>> {
    Seq::new(tn.len(), |k: int| if lo <= k < hi { picked(tn[k], sel, k).1 } else { tn[k] })
}

/// Only the notes of the tracks changed: each track keeps its channel
/// events and mute flag.
pub open spec fn same_but_notes(a: Seq<MIDITrack>, b: Seq<MIDITrack>) -> bool {
    &&& a.len() == b.len()
    &&& forall|k: int| 0 <= k < a.len() ==> (#[trigger] a[k]).channel_events@ == b[k].channel_events@ && a[k].muted == b[k].muted
}

/// Ghost notes by their views.
pub open spec fn ghosts_view(g: Seq<(u16, Vec<Note>)>) -> Seq<(u16, Seq<Note>)> {
    g.map_values(|p: (u16, Vec<Note>)| (p.0, p.1@))
}

/// Merging the first `k` ghost tracks back, one after the other: the
/// tracks' notes, the selection (each track's merged notes selected) and
/// where the merged notes went. `None` where a ghost track does not exist
/// or a track would grow past the largest length.
pub open spec fn merged_ghosts(tn: Seq<Seq<Note>>, sel: Map<u16, Seq<usize>>, gs: Seq<(u16, Seq<Note>)>, k: int) -> Option<
    (Seq<Seq<Note>>, Map<u16, Seq<usize>>, Seq<(u16, Seq<usize>)>),
>
    decreases k,
{
    if k <= 0 {
        Some((tn, sel, Seq::empty()))
    } else {
        match merged_ghosts(tn, sel, gs, k - 1) {
            None => None,
            Some((t1, s1, ids)) => {
                let (trk, notes) = gs[k - 1];
                if trk as int >= t1.len() || t1[trk as int].len() + notes.len() > usize::MAX {
                    None
                } else {
                    let pos = ints_as_usizes(merge_positions(t1[trk as int], notes));
                    Some((t1.update(trk as int, merge_spec(t1[trk as int], notes)), s1.insert(trk, pos), ids.push((trk, pos))))
                }
            },
        }
    }
}

proof fn lemma_merged_ghosts_prefix(tn: Seq<Seq<Note>>, sel: Map<u16, Seq<usize>>, gs: Seq<(u16, Seq<Note>)>, k: int, n: int)
    requires
        0 <= k <= n,
        merged_ghosts(tn, sel, gs, n) is Some,
    ensures
        merged_ghosts(tn, sel, gs, k) is Some,
    decreases n - k,
{
    if k < n {
        lemma_merged_ghosts_prefix(tn, sel, gs, k + 1, n);
    }
}

/// A track's notes once its picked-up notes are merged back.
pub open spec fn put_back(notes: Seq<Note>, sel: Map<u16, Seq<usize>>, trk: int) -> Seq<Note> {
    merge_spec(picked(notes, sel, trk).1, picked(notes, sel, trk).0)
}

/// Picking up the selected notes of the tracks `lo..hi` and merging the
/// ghost notes back unmoved gives every track its notes back: each track
/// is in order by start and holds the same notes as before; a track where
/// no two notes start together is exactly as before.
pub proof fn lemma_pick_up_then_put_back(
    tn: Seq<Seq<Note>>,
    sel: Map<u16, Seq<usize>>,
    sel_at_release: Map<u16, Seq<usize>>,
    lo: int,
    hi: int,
)
    requires
        0 <= lo,
        hi <= u16::MAX + 1,
        forall|k: int| 0 <= k < tn.len() ==> (#[trigger] tn[k]).len() <= usize::MAX && is_sorted(tn[k]),
    ensures
        ({
            let gs = picked_ghosts(tn, sel, lo, hi);
            let m = merged_ghosts(picked_tracks(tn, sel, lo, hi), sel_at_release, gs, gs.len() as int);
            &&& m is Some
            &&& m.unwrap().0.len() == tn.len()
            &&& forall|k: int| 0 <= k < tn.len() ==> {
                &&& is_sorted(#[trigger] m.unwrap().0[k])
                &&& m.unwrap().0[k].to_multiset() == tn[k].to_multiset()
                &&& is_strictly_sorted(tn[k]) ==> m.unwrap().0[k] == tn[k]
            }
        }),
{
    let gs = picked_ghosts(tn, sel, lo, hi);
    let t1 = picked_tracks(tn, sel, lo, hi);
    lemma_put_back_prefix(tn, sel, sel_at_release, lo, hi, gs.len() as int);
    let m = merged_ghosts(t1, sel_at_release, gs, gs.len() as int);
    let end = pick_end(tn.len() as int, hi);
    assert forall|k: int| 0 <= k < tn.len() implies {
        &&& is_sorted(#[trigger] m.unwrap().0[k])
        &&& m.unwrap().0[k].to_multiset() == tn[k].to_multiset()
        &&& is_strictly_sorted(tn[k]) ==> m.unwrap().0[k] == tn[k]
    } by {
        if lo <= k < lo + gs.len() {
            lemma_put_back_track(tn[k], sel, k);
        } else {
            assert(!(lo <= k < hi) || k >= end);
        }
    }
}

/// Merging back one track's picked-up notes gives a track in order with
/// the same notes, the same track when no two notes start together.
proof fn lemma_put_back_track(n: Seq<Note>, sel: Map<u16, Seq<usize>>, trk: int)
    requires
        is_sorted(n),
    ensures
        is_sorted(put_back(n, sel, trk)),
        put_back(n, sel, trk).to_multiset() == n.to_multiset(),
        put_back(n, sel, trk).len() == n.len(),
        is_strictly_sorted(n) ==> put_back(n, sel, trk) == n,
{
    let (taken, kept) = picked(n, sel, trk);
    if sel.contains_key(trk as u16) {
        let ids = sel[trk as u16];
        lemma_extract_from_multiset(n, ids, 0, 0);
        lemma_extract_from_sorted(n, ids, 0, 0, if n.len() > 0 { n[0].start as int } else { 0 });
        assert(n.skip(0) =~= n);
    } else {
        assert(taken =~= Seq::<Note>::empty());
        taken.to_multiset_ensures();
    }
    lemma_merge_multiset(kept, taken);
    lemma_merge_sorted(kept, taken);
    lemma_merge_len(kept, taken);
    let merged = merge_spec(kept, taken);
    assert(merged.to_multiset() =~= n.to_multiset());
    if is_strictly_sorted(n) {
        lemma_sorted_permutation_unique(n, merged);
    }
}

/// After merging back the first `i` ghost tracks, those tracks have their
/// notes put back and the others are as picked.
proof fn lemma_put_back_prefix(
    tn: Seq<Seq<Note>>,
    sel: Map<u16, Seq<usize>>,
    s0: Map<u16, Seq<usize>>,
    lo: int,
    hi: int,
    i: int,
)
    requires
        0 <= lo,
        hi <= u16::MAX + 1,
        forall|k: int| 0 <= k < tn.len() ==> (#[trigger] tn[k]).len() <= usize::MAX && is_sorted(tn[k]),
        0 <= i <= picked_ghosts(tn, sel, lo, hi).len(),
    ensures
        merged_ghosts(picked_tracks(tn, sel, lo, hi), s0, picked_ghosts(tn, sel, lo, hi), i) is Some,
        merged_ghosts(picked_tracks(tn, sel, lo, hi), s0, picked_ghosts(tn, sel, lo, hi), i).unwrap().0 == Seq::new(
            tn.len(),
            |k: int| if lo <= k < lo + i { put_back(tn[k], sel, k) } else { picked_tracks(tn, sel, lo, hi)[k] },
        ),
    decreases i,
{
    let gs = picked_ghosts(tn, sel, lo, hi);
    let t1 = picked_tracks(tn, sel, lo, hi);
    let end = pick_end(tn.len() as int, hi);
    if i == 0 {
        assert(t1 =~= Seq::new(tn.len(), |k: int| if lo <= k < lo + 0 { put_back(tn[k], sel, k) } else { t1[k] }));
    } else {
        lemma_put_back_prefix(tn, sel, s0, lo, hi, i - 1);
        let prev = merged_ghosts(t1, s0, gs, i - 1).unwrap().0;
        let trk = lo + i - 1;
        assert(gs[i - 1] == ((lo + i - 1) as u16, picked(tn[trk], sel, trk).0));
        assert(trk < end);
        assert(((lo + i - 1) as u16) as int == trk);
        assert(prev[trk] == t1[trk]);
        assert(t1[trk] == picked(tn[trk], sel, trk).1);
        assert(prev[trk].len() + picked(tn[trk], sel, trk).0.len() <= usize::MAX) by {
            if sel.contains_key(trk as u16) {
                lemma_extract_from_multiset(tn[trk], sel[trk as u16], 0, 0);
            }
        }
        let next = merged_ghosts(t1, s0, gs, i).unwrap().0;
        assert(next =~= Seq::new(
            tn.len(),
            |k: int| if lo <= k < lo + i { put_back(tn[k], sel, k) } else { t1[k] },
        ));
    }
}

/// The track view's editing state by its views.
pub struct TrackEditView {
    pub flags: u16,
    pub selection_range: (MIDITick, MIDITick, u16, u16),
    pub draw_select_box: bool,
    pub has_selection: bool,
    pub ghosts: Seq<(u16, Seq<Note>)>,
    pub ppq: u16,
    pub right_clicked_track: u16,
}

/// The mouse is inside the current selection.
pub open spec fn over_selection(v: TrackEditView, m: TrackEditMouseInfo) -> bool {
    v.has_selection && {
        let (min_tick, max_tick, min_track, max_track) = ordered_track_range(v.selection_range);
        let (x, y) = m.mouse_midi_track_pos;
        x > min_tick && x < max_tick && y >= min_track && y < max_track
    }
}

/// The mouse position with its tick snapped to the grid.
pub open spec fn snapped_pos(ppq: u16, snap_ratio: (u8, u16), p: (MIDITick, u16)) -> (MIDITick, u16) {
    (snapped(ppq, snap_ratio, signed_tick(p.0)) as MIDITick, p.1)
}

/// The selection box's range is usable: its track corners are below the
/// largest track number.
pub open spec fn range_ok(r: (MIDITick, MIDITick, u16, u16)) -> bool {
    r.2 < u16::MAX && r.3 < u16::MAX
}

/// The selection a box makes without shift: each track's notes in the box.
pub open spec fn selection_of_pairs(pairs: Seq<(u16, Seq<usize>)>, k: int) -> Map<u16, Seq<usize>>
    decreases k,
{
    if k <= 0 {
        Map::empty()
    } else {
        selection_of_pairs(pairs, k - 1).insert(pairs[k - 1].0, pairs[k - 1].1)
    }
}

/// With shift, a box adds to the selection: each track it holds notes in
/// gets the union of what was selected and the box's notes, sorted; the
/// other tracks keep theirs.
pub open spec fn added_selection(old_sel: Map<u16, Seq<usize>>, pairs: Seq<(u16, Seq<usize>)>, new_sel: Map<u16, Seq<usize>>) -> bool {
    &&& forall|t: u16| #[trigger] new_sel.contains_key(t) <==> (old_sel.contains_key(t) || exists|i: int| 0 <= i < pairs.len() && pairs[i].0 == t)
    &&& forall|i: int| 0 <= i < pairs.len() ==> {
        let t = #[trigger] pairs[i].0;
        &&& strictly_increasing_usize(new_sel[t])
        &&& forall|id: usize| #[trigger] new_sel[t].contains(id) <==> (pairs[i].1.contains(id) || (old_sel.contains_key(t) && old_sel[t].contains(id)))
    }
    &&& forall|t: u16| #[trigger] old_sel.contains_key(t) && (forall|i: int| 0 <= i < pairs.len() ==> pairs[i].0 != t) ==> new_sel[t] == old_sel[t]
}

/// Every selection of `sel` lies in an existing track, its ids in range.
pub open spec fn selection_in_tracks(sel: Map<u16, Seq<usize>>, tn: Seq<Seq<Note>>) -> bool {
    forall|t: u16| #[trigger] sel.contains_key(t) ==> (t as int) < tn.len() && all_below(sel[t], tn[t as int].len() as int)
}

/// Every selection of `sel` lies in an existing track.
pub open spec fn selection_tracks_exist(sel: Map<u16, Seq<usize>>, tn: Seq<Seq<Note>>) -> bool {
    forall|t: u16| #[trigger] sel.contains_key(t) ==> (t as int) < tn.len()
}

/// The clipboard that copying the selection fills: each selected track's
/// selected notes.
pub open spec fn copied_clipboard(sel: Map<u16, Seq<usize>>, tn: Seq<Seq<Note>>) -> Map<u16, Seq<Note>> {
    Map::new(|t: u16| sel.contains_key(t), |t: u16| notes_at(tn[t as int], sel[t]))
}

/// The clipboard that cutting the selection fills: the cut notes of each
/// track with a nonempty selection.
pub open spec fn cut_clipboard(sel: Map<u16, Seq<usize>>, tn: Seq<Seq<Note>>) -> Map<u16, Seq<Note>> {
    Map::new(|t: u16| sel.contains_key(t) && sel[t].len() > 0, |t: u16| extract_spec(tn[t as int], sel[t]).0)
}

/// The tracks' notes once the selection is cut out.
pub open spec fn cut_tracks(sel: Map<u16, Seq<usize>>, tn: Seq<Seq<Note>>) -> Seq<Seq<Note>> {
    Seq::new(tn.len(), |k: int| if 0 <= k <= u16::MAX && sel.contains_key(k as u16) && sel[k as u16].len() > 0 {
        extract_spec(tn[k], sel[k as u16]).1
    } else {
        tn[k]
    })
}

/// The deletions that cutting records, for the tracks `ks` in order (those
/// with a nonempty selection).
pub open spec fn cut_actions(sel: Map<u16, Seq<usize>>, tn: Seq<Seq<Note>>, ks: Seq<u16>, k: int) -> Seq<ActionView>
    decreases k,
{
    if k <= 0 {
        Seq::empty()
    } else {
        let prev = cut_actions(sel, tn, ks, k - 1);
        let t = ks[k - 1];
        if sel.contains_key(t) && sel[t].len() > 0 {
            prev.push(ActionView::DeleteNotes(sel[t], Some(extract_spec(tn[t as int], sel[t]).0), t))
        } else {
            prev
        }
    }
}

/// The deletions that deleting the selection records, for the tracks `ks`
/// in order (every track with an entry in the selection).
pub open spec fn delete_actions(sel: Map<u16, Seq<usize>>, tn: Seq<Seq<Note>>, ks: Seq<u16>, k: int) -> Seq<ActionView>
    decreases k,
{
    if k <= 0 {
        Seq::empty()
    } else {
        let t = ks[k - 1];
        delete_actions(sel, tn, ks, k - 1).push(ActionView::DeleteNotes(sel[t], Some(extract_spec(tn[t as int], sel[t]).0), t))
    }
}

/// `ks` lists the keys of `m` in ascending order.
pub open spec fn ascending_keys<V>(ks: Seq<u16>, m: Map<u16, V>) -> bool {
    strictly_increasing_u16(ks) && forall|t: u16| #[trigger] ks.contains(t) <==> m.contains_key(t)
}

/// The offset from the playhead that the clipboard keeps once it is
/// prepared: the start of the (emptied) clipboard, the largest tick read as
/// a signed tick, minus the playhead.
pub open spec fn prepared_offset(playhead_tick: MIDITick) -> int {
    -1 - signed_tick(playhead_tick)
}

/// A pasted note's start: its start plus the playhead plus the clipboard's
/// offset, read as signed ticks.
pub open spec fn paste_start(n: Note, playhead_tick: MIDITick, offset: SignedMIDITick) -> int {
    signed_tick(n.start) + signed_tick(playhead_tick) + offset as int
}

/// The pasted notes can be placed: each start computation stays a signed
/// tick.
pub open spec fn paste_starts_ok(notes: Seq<Note>, playhead_tick: MIDITick, offset: SignedMIDITick) -> bool {
    forall|i: int| 0 <= i < notes.len() ==> {
        &&& i32::MIN <= signed_tick(#[trigger] notes[i].start) + signed_tick(playhead_tick) <= i32::MAX
        &&& i32::MIN <= paste_start(notes[i], playhead_tick, offset) <= i32::MAX
    }
}

/// The notes as pasted: each start moved (and kept at 0 or later).
pub open spec fn pasted_notes(notes: Seq<Note>, playhead_tick: MIDITick, offset: SignedMIDITick) -> Seq<Note> {
    Seq::new(notes.len(), |i: int| {
        let st = paste_start(notes[i], playhead_tick, offset);
        Note { start: if st < 0 { 0 } else { st as MIDITick }, ..notes[i] }
    })
}

/// Pasting the clipboard's tracks `ks[..k]` in order, the first at
/// `base`: the tracks' notes (empty tracks appended where a destination is
/// past the `num` tracks there were), the selection (each destination's
/// pasted notes), the recorded track additions and placements. `None` where
/// a step cannot be carried out: a destination past the largest track
/// number or not yet there, a moved start that leaves the signed ticks, or a
/// track that would grow past the largest length.
pub open spec fn paste_fold(
    tn: Seq<Seq<Note>>,
    sel: Map<u16, Seq<usize>>,
    cb: Map<u16, Seq<Note>>,
    ks: Seq<u16>,
    base: u16,
    num: int,
    playhead_tick: MIDITick,
    offset: SignedMIDITick,
    k: int,
) -> Option<(Seq<Seq<Note>>, Map<u16, Seq<usize>>, Seq<ActionView>, Seq<ActionView>)>
    decreases k,
{
    if k <= 0 {
        Some((tn, sel, Seq::empty(), Seq::empty()))
    } else {
        match paste_fold(tn, sel, cb, ks, base, num, playhead_tick, offset, k - 1) {
            None => None,
            Some((t1, s1, ta, pa)) => {
                let src = ks[k - 1];
                let dest = base + (src - ks[0]);
                let notes = cb[src];
                if src < ks[0] || dest > u16::MAX || !paste_starts_ok(notes, playhead_tick, offset) {
                    None
                } else {
                    let t2 = if dest >= num { t1.push(Seq::empty()) } else { t1 };
                    let ta2 = if dest >= num { ta.push(ActionView::AddTrack(dest as u16, None, false)) } else { ta };
                    if dest >= t2.len() || t2[dest].len() + notes.len() > usize::MAX {
                        None
                    } else {
                        let p = pasted_notes(notes, playhead_tick, offset);
                        let pos = ints_as_usizes(merge_positions(t2[dest], p));
                        Some((
                            t2.update(dest, merge_spec(t2[dest], p)),
                            s1.insert(dest as u16, pos),
                            ta2,
                            pa.push(ActionView::PlaceNotes(pos, None, dest as u16)),
                        ))
                    }
                }
            },
        }
    }
}

proof fn lemma_paste_fold_prefix(
    tn: Seq<Seq<Note>>,
    sel: Map<u16, Seq<usize>>,
    cb: Map<u16, Seq<Note>>,
    ks: Seq<u16>,
    base: u16,
    num: int,
    playhead_tick: MIDITick,
    offset: SignedMIDITick,
    k: int,
    n: int,
)
    requires
        0 <= k <= n,
        paste_fold(tn, sel, cb, ks, base, num, playhead_tick, offset, n) is Some,
    ensures
        paste_fold(tn, sel, cb, ks, base, num, playhead_tick, offset, k) is Some,
    decreases n - k,
{
    if k < n {
        lemma_paste_fold_prefix(tn, sel, cb, ks, base, num, playhead_tick, offset, k + 1, n);
    }
}

/// Tracks appended by pasting are empty and unmuted; the others keep their
/// channel events and mute flag.
pub open spec fn grown_tracks(after: Seq<MIDITrack>, before: Seq<MIDITrack>) -> bool {
    &&& after.len() >= before.len()
    &&& forall|k: int| 0 <= k < before.len() ==> (#[trigger] after[k]).channel_events@ == before[k].channel_events@ && after[k].muted == before[k].muted
    &&& forall|k: int| before.len() <= k < after.len() ==> (#[trigger] after[k]).channel_events@.len() == 0 && !after[k].muted
}

proof fn lemma_region_tracks(tracks: Seq<Seq<Note>>, min_tick: MIDITick, max_tick: MIDITick, trk: int, max_track: int)
    requires
        0 <= trk,
        max_track <= u16::MAX + 1,
    ensures
        ({
            let r = region_ids_from(tracks, min_tick, max_tick, trk, max_track);
            &&& forall|i: int| 0 <= i < r.len() ==> trk <= #[trigger] r[i].0
            &&& forall|i: int, j: int| 0 <= i < j < r.len() ==> r[i].0 < r[j].0
        }),
    decreases max_track - trk,
{
    if !(trk >= max_track || trk >= tracks.len()) {
        lemma_region_tracks(tracks, min_tick, max_tick, trk + 1, max_track);
        let r = region_ids_from(tracks, min_tick, max_tick, trk, max_track);
        let rest = region_ids_from(tracks, min_tick, max_tick, trk + 1, max_track);
        let ids = notes_in_range_spec(tracks[trk], min_tick, max_tick, 0, 127, true);
        if ids.len() > 0 {
            assert(r == seq![(trk as u16, ids)] + rest);
            assert((trk as u16) as int == trk);
            assert forall|i: int| 0 <= i < r.len() implies trk <= #[trigger] r[i].0 by {
                if i > 0 {
                    assert(r[i] == rest[i - 1]);
                }
            }
            assert forall|i: int, j: int| 0 <= i < j < r.len() implies r[i].0 < r[j].0 by {
                assert(r[j] == rest[j - 1]);
                if i > 0 {
                    assert(r[i] == rest[i - 1]);
                } else {
                    assert(trk + 1 <= rest[j - 1].0);
                }
            }
        }
    }
}

/// A copy of a list of indices.
fn copy_ids(ids: &Vec<usize>) -> (r: Vec<usize>)
    ensures
        r@ == ids@,
{
    let mut r: Vec<usize> = Vec::with_capacity(ids.len());
    for i in 0..ids.len()
        invariant
            r@ == ids@.subrange(0, i as int),
    {
        r.push(ids[i]);
        assert(r@ =~= ids@.subrange(0, i + 1));
    }
    assert(r@ =~= ids@);
    r
}

/// Copies of the notes at `ids`.
fn clone_track_notes(notes: &Vec<Note>, ids: &[usize]) -> (r: Vec<Note>)
    requires
        all_below(ids@, notes@.len() as int),
    ensures
        r@ == notes_at(notes@, ids@),
{
    let mut copied: Vec<Note> = Vec::with_capacity(ids.len());
    let n = ids.len();
    for i in 0..n
        invariant
            n == ids@.len(),
            all_below(ids@, notes@.len() as int),
            copied@ == notes_at(notes@, ids@.subrange(0, i as int)),
    {
        assert(ids@[i as int] < notes@.len());
        copied.push(notes[ids[i]]);
        assert(copied@ =~= notes_at(notes@, ids@.subrange(0, i + 1)));
    }
    assert(ids@.subrange(0, n as int) =~= ids@);
    copied
}

/// The notes moved as they are pasted (see [`pasted_notes`]).
fn shift_notes(notes: Vec<Note>, playhead_tick: MIDITick, offset: SignedMIDITick) -> (r: Vec<Note>)
    requires
        paste_starts_ok(notes@, playhead_tick, offset),
    ensures
        r@ == pasted_notes(notes@, playhead_tick, offset),
{
    let mut r: Vec<Note> = Vec::with_capacity(notes.len());
    let playhead: SignedMIDITick = #[verifier::truncate] (playhead_tick as SignedMIDITick);
    for i in 0..notes.len()
        invariant
            paste_starts_ok(notes@, playhead_tick, offset),
            playhead as int == signed_tick(playhead_tick),
            r@ == pasted_notes(notes@, playhead_tick, offset).subrange(0, i as int),
    {
        let n = notes[i];
        assert(notes@[i as int] == n);
        let st: SignedMIDITick = #[verifier::truncate] (n.start as SignedMIDITick);
        let moved = st + playhead + offset;
        let start: MIDITick = if moved < 0 { 0 } else { moved as MIDITick };
        r.push(Note { start, length: n.length, channel: n.channel, key: n.key, velocity: n.velocity });
        assert(r@ =~= pasted_notes(notes@, playhead_tick, offset).subrange(0, i + 1));
    }
    assert(r@ =~= pasted_notes(notes@, playhead_tick, offset));
    r
}

/// A copy of a list of notes.
fn copy_note_vec(notes: &Vec<Note>) -> (r: Vec<Note>)
    ensures
        r@ == notes@,
{
    let mut r: Vec<Note> = Vec::with_capacity(notes.len());
    for i in 0..notes.len()
        invariant
            r@ == notes@.subrange(0, i as int),
    {
        r.push(notes[i]);
        assert(r@ =~= notes@.subrange(0, i + 1));
    }
    assert(r@ =~= notes@);
    r
}

/// The selection box's corners in order, the track range being half open:
/// (min tick, max tick, min track, max track + 1).
pub open spec fn ordered_track_range(r: (MIDITick, MIDITick, u16, u16)) -> (MIDITick, MIDITick, u16, u16) {
    (
        if r.0 > r.1 { r.1 } else { r.0 },
        if r.0 > r.1 { r.0 } else { r.1 },
        if r.2 > r.3 { r.3 } else { r.2 },
        (if r.2 > r.3 { r.2 + 1 } else { r.3 + 1 }) as u16,
    )
}

/// What a press with the selector does (see [`TrackEditing::select_mouse_down`]),
/// from state `v`, mouse `m`, tracks `t0` and selection `sel0` to `v1`, `m1`,
/// `t1` and `sel1`.
pub open spec fn select_down_effect(
    v: TrackEditView,
    m: TrackEditMouseInfo,
    t0: Seq<MIDITrack>,
    sel0: Map<u16, Seq<usize>>,
    snap_ratio: (u8, u16),
    v1: TrackEditView,
    m1: TrackEditMouseInfo,
    t1: Seq<MIDITrack>,
    sel1: Map<u16, Seq<usize>>,
) -> bool {
    let over = over_selection(v, m);
    let p = snapped_pos(v.ppq, snap_ratio, m.mouse_midi_track_pos);
    let shift = v.flags & TRACK_EDIT_SHIFT_DOWN != 0;
    let r = ordered_track_range(v.selection_range);
    &&& over ==> {
        &&& v1 == (TrackEditView {
            flags: v.flags | TRACK_EDIT_SELECTION_MOVE,
            ghosts: picked_ghosts(track_notes(t0), sel0, r.2 as int, r.3 as int),
            ..v
        })
        &&& track_notes(t1) == picked_tracks(track_notes(t0), sel0, r.2 as int, r.3 as int)
        &&& same_but_notes(t1, t0)
        &&& sel1 == Map::<u16, Seq<usize>>::empty()
        &&& m1 == (TrackEditMouseInfo { last_mouse_click_pos: p, ..m })
    }
    &&& !over ==> {
        &&& v1 == (TrackEditView {
            flags: v.flags & !TRACK_EDIT_SELECTION_MOVE,
            selection_range: (p.0, p.0, p.1, p.1),
            draw_select_box: true,
            has_selection: shift && v.has_selection,
            ..v
        })
        &&& t1 == t0
        &&& sel1 == (if shift { sel0 } else { Map::<u16, Seq<usize>>::empty() })
        &&& m1 == m
    }
}

/// The state after a mouse move with the selector: the selection box's
/// second corner follows the mouse unless the selection is being moved.
pub open spec fn select_moved(v: TrackEditView, m: TrackEditMouseInfo, snap_ratio: (u8, u16)) -> TrackEditView {
    let p = snapped_pos(v.ppq, snap_ratio, m.mouse_midi_track_pos);
    if v.flags & TRACK_EDIT_SELECTION_MOVE == 0 {
        TrackEditView { selection_range: (v.selection_range.0, p.0, v.selection_range.2, p.1), ..v }
    } else {
        v
    }
}

/// A release with the selector can be carried out: a moved selection can
/// be merged back, a selection box can be scanned.
pub open spec fn select_up_ok(v: TrackEditView, t0: Seq<MIDITrack>, sel0: Map<u16, Seq<usize>>) -> bool {
    &&& v.flags & TRACK_EDIT_SELECTION_MOVE != 0 ==> merged_ghosts(track_notes(t0), sel0, v.ghosts, v.ghosts.len() as int) is Some
    &&& v.flags & TRACK_EDIT_SELECTION_MOVE == 0 ==> {
        &&& range_ok(v.selection_range)
        &&& region_scannable(
            track_notes(t0),
            ordered_track_range(v.selection_range).0,
            ordered_track_range(v.selection_range).1,
            ordered_track_range(v.selection_range).2 as int,
            ordered_track_range(v.selection_range).3 as int,
        )
    }
}

/// What a release with the selector does (see
/// [`TrackEditing::select_mouse_up`]).
pub open spec fn select_up_effect(
    v: TrackEditView,
    t0: Seq<MIDITrack>,
    sel0: Map<u16, Seq<usize>>,
    v1: TrackEditView,
    t1: Seq<MIDITrack>,
    sel1: Map<u16, Seq<usize>>,
) -> bool {
    let tn = track_notes(t0);
    &&& v.flags & TRACK_EDIT_SELECTION_MOVE != 0 ==> {
        let m = merged_ghosts(tn, sel0, v.ghosts, v.ghosts.len() as int)->0;
        &&& v1 == (TrackEditView { ghosts: Seq::empty(), ..v })
        &&& track_notes(t1) == m.0
        &&& same_but_notes(t1, t0)
        &&& sel1 == m.1
    }
    &&& v.flags & TRACK_EDIT_SELECTION_MOVE == 0 ==> {
        let shift = v.flags & TRACK_EDIT_SHIFT_DOWN != 0;
        let found = note_ids_in_region(tn, ordered_track_range(v.selection_range));
        let base = if shift { sel0 } else { Map::<u16, Seq<usize>>::empty() };
        &&& v1 == (TrackEditView {
            draw_select_box: false,
            has_selection: found is Some || (shift && v.has_selection),
            ..v
        })
        &&& t1 == t0
        &&& match found {
            None => sel1 == base,
            Some(pairs) => if shift {
                added_selection(base, pairs, sel1)
            } else {
                sel1 == selection_of_pairs(pairs, pairs.len() as int)
            },
        }
    }
}

/// A mouse move or release in the track view reaches the tools: it did not
/// start on the interface, and no dialog is open and the mouse is not over
/// the interface.
pub open spec fn track_event_reaches_tools(flags: u16) -> bool {
    flags & TRACK_EDIT_MOUSE_DOWN_ON_UI == 0 && flags & (TRACK_EDIT_ANY_DIALOG_OPEN | TRACK_EDIT_MOUSE_OVER_UI) == 0
}

/// The track view's editing state.
pub struct TrackEditing {
    pub flags: u16,
    pub selection_range: (MIDITick, MIDITick, u16, u16),
    pub draw_select_box: bool,
    pub has_selection: bool,
    pub ghost_notes: Vec<(u16, Vec<Note>)>,
    pub ppq: u16,
    pub right_clicked_track: u16,
}

impl TrackEditing {
    pub open spec fn view_state(&self) -> TrackEditView {
        TrackEditView {
            flags: self.flags,
            selection_range: self.selection_range,
            draw_select_box: self.draw_select_box,
            has_selection: self.has_selection,
            ghosts: ghosts_view(self.ghost_notes@),
            ppq: self.ppq,
            right_clicked_track: self.right_clicked_track,
        }
    }

    pub fn new() -> (r: Self)
        ensures
            r.flags == TRACK_EDIT_FLAGS_NONE,
            r.selection_range == (0u32, 0u32, 0u16, 0u16),
            !r.draw_select_box,
            !r.has_selection,
            r.ghost_notes@.len() == 0,
            r.ppq == 960,
            r.right_clicked_track == 0,
    {
        TrackEditing {
            flags: TRACK_EDIT_FLAGS_NONE,
            selection_range: (0, 0, 0, 0),
            draw_select_box: false,
            has_selection: false,
            ghost_notes: Vec::new(),
            ppq: 960,
            right_clicked_track: 0,
        }
    }

    /// `tick` snapped to the grid.
    pub fn snap_tick(&self, tick: i32, snap_ratio: (u8, u16)) -> (r: i32)
        requires
            snap_ok(self.ppq, snap_ratio, tick as int),
        ensures
            r == snapped(self.ppq, snap_ratio, tick as int),
    {
        if snap_ratio.0 == 0 {
            return tick;
        }
        let quarter: u32 = (self.ppq as u32) * 4;
        assert(quarter * (snap_ratio.0 as u32) <= 262140 * 255) by (nonlinear_arith)
            requires
                quarter <= 262140,
                snap_ratio.0 <= 255,
        ;
        let whole: u32 = quarter * (snap_ratio.0 as u32);
        let snap_u: u32 = whole / (snap_ratio.1 as u32);
        assert(snap_u == min_snap_spec(self.ppq, snap_ratio));
        if snap_u == 1 {
            return tick;
        }
        assert(snap_u <= 262140 * 255) by (nonlinear_arith)
            requires
                snap_u == whole / (snap_ratio.1 as u32),
                whole <= 262140 * 255,
                snap_ratio.1 >= 1,
        ;
        let snap: i32 = snap_u as i32;
        let half = snap / 2;
        if tick >= 0 {
            let q = (tick + half) / snap;
            assert(q * snap <= tick + half) by (nonlinear_arith)
                requires
                    q == (tick + half) / (snap as int),
                    snap > 0,
                    tick + half >= 0,
            ;
            assert(q >= 0) by (nonlinear_arith)
                requires
                    q == (tick + half) / (snap as int),
                    snap > 0,
                    tick + half >= 0,
            ;
            q * snap
        } else {
            let dist: i64 = (half as i64) - (tick as i64);
            let q: i64 = dist / (snap as i64);
            assert(q * snap <= dist) by (nonlinear_arith)
                requires
                    q == (dist as int) / (snap as int),
                    snap > 0,
                    dist >= 0,
            ;
            assert(q >= 0) by (nonlinear_arith)
                requires
                    q == (dist as int) / (snap as int),
                    snap > 0,
                    dist >= 0,
            ;
            (-(q * (snap as i64))) as i32
        }
    }

    /// The selection box as (min tick, max tick, min track, max track + 1).
    pub fn get_selection_range(&self) -> (r: (MIDITick, MIDITick, u16, u16))
        requires
            self.selection_range.2 < u16::MAX,
            self.selection_range.3 < u16::MAX,
        ensures
            r == ordered_track_range(self.selection_range),
    {
        let (min_tick, max_tick) = if self.selection_range.0 > self.selection_range.1 {
            (self.selection_range.1, self.selection_range.0)
        } else {
            (self.selection_range.0, self.selection_range.1)
        };
        let (min_track, max_track) = if self.selection_range.2 > self.selection_range.3 {
            (self.selection_range.3, self.selection_range.2 + 1)
        } else {
            (self.selection_range.2, self.selection_range.3 + 1)
        };
        (min_tick, max_tick, min_track, max_track)
    }

    /// Whether the mouse is inside the current selection (there must be one).
    pub fn is_mouse_over_select_area(&self, mouse: &TrackEditMouseInfo) -> (r: bool)
        requires
            self.has_selection ==> self.selection_range.2 < u16::MAX && self.selection_range.3 < u16::MAX,
        ensures
            r == (self.has_selection && {
                let (min_tick, max_tick, min_track, max_track) = ordered_track_range(self.selection_range);
                let (x, y) = mouse.mouse_midi_track_pos;
                x > min_tick && x < max_tick && y >= min_track && y < max_track
            }),
    {
        if !self.has_selection {
            return false;
        }
        let (min_tick, max_tick, min_track, max_track) = self.get_selection_range();
        let (mouse_x, mouse_y) = mouse.mouse_midi_track_pos;
        mouse_x > min_tick && mouse_x < max_tick && mouse_y >= min_track && mouse_y < max_track
    }

    /// Starts a selection box at `start_pos`, its tick snapped to the grid.
    pub fn init_selection_box(&mut self, start_pos: (MIDITick, u16), snap_ratio: (u8, u16))
        requires
            snap_ok(old(self).ppq, snap_ratio, signed_tick(start_pos.0)),
        ensures
            ({
                let s = snapped(old(self).ppq, snap_ratio, signed_tick(start_pos.0)) as MIDITick;
                &&& final(self).selection_range == (s, s, start_pos.1, start_pos.1)
                &&& final(self).draw_select_box
            }),
            final(self).flags == old(self).flags,
            final(self).has_selection == old(self).has_selection,
            final(self).ghost_notes@ == old(self).ghost_notes@,
            final(self).ppq == old(self).ppq,
            final(self).right_clicked_track == old(self).right_clicked_track,
    {
        let tick: i32 = #[verifier::truncate] (start_pos.0 as i32);
        let snapped_tick = self.snap_tick(tick, snap_ratio) as MIDITick;
        self.selection_range = (snapped_tick, snapped_tick, start_pos.1, start_pos.1);
        self.draw_select_box = true;
    }

    /// Moves the selection box's second corner to `new_pos`, its tick
    /// snapped to the grid.
    pub fn update_selection_box(&mut self, new_pos: (MIDITick, u16), snap_ratio: (u8, u16))
        requires
            snap_ok(old(self).ppq, snap_ratio, signed_tick(new_pos.0)),
        ensures
            ({
                let s = snapped(old(self).ppq, snap_ratio, signed_tick(new_pos.0)) as MIDITick;
                let r = old(self).selection_range;
                final(self).selection_range == (r.0, s, r.2, new_pos.1)
            }),
            final(self).draw_select_box == old(self).draw_select_box,
            final(self).flags == old(self).flags,
            final(self).has_selection == old(self).has_selection,
            final(self).ghost_notes@ == old(self).ghost_notes@,
            final(self).ppq == old(self).ppq,
            final(self).right_clicked_track == old(self).right_clicked_track,
    {
        let tick: i32 = #[verifier::truncate] (new_pos.0 as i32);
        let snapped_tick = self.snap_tick(tick, snap_ratio) as MIDITick;
        self.selection_range.1 = snapped_tick;
        self.selection_range.3 = new_pos.1;
    }

    /// Drops the selection in every track.
    pub fn deselect_all(&mut self, selected: &mut SharedSelectedNotes)
        ensures
            !final(self).has_selection,
            final(selected)@ == Map::<u16, Seq<usize>>::empty(),
            final(self).flags == old(self).flags,
            final(self).selection_range == old(self).selection_range,
            final(self).draw_select_box == old(self).draw_select_box,
            final(self).ghost_notes@ == old(self).ghost_notes@,
            final(self).ppq == old(self).ppq,
            final(self).right_clicked_track == old(self).right_clicked_track,
    {
        self.has_selection = false;
        selected.clear_selected();
    }

    /// Picks up the selected notes of the tracks the selection box spans as
    /// ghost notes, and drops the selection.
    pub fn selected_notes_to_ghost_notes(&mut self, tracks: &mut Vec<MIDITrack>, selected: &mut SharedSelectedNotes)
        requires
            old(self).selection_range.2 < u16::MAX,
            old(self).selection_range.3 < u16::MAX,
        ensures
            ({
                let r = ordered_track_range(old(self).selection_range);
                let tn = track_notes(old(tracks)@);
                &&& ghosts_view(final(self).ghost_notes@) == picked_ghosts(tn, old(selected)@, r.2 as int, r.3 as int)
                &&& track_notes(final(tracks)@) == picked_tracks(tn, old(selected)@, r.2 as int, r.3 as int)
            }),
            same_but_notes(final(tracks)@, old(tracks)@),
            final(selected)@ == Map::<u16, Seq<usize>>::empty(),
            final(self).flags == old(self).flags,
            final(self).selection_range == old(self).selection_range,
            final(self).draw_select_box == old(self).draw_select_box,
            final(self).has_selection == old(self).has_selection,
            final(self).ppq == old(self).ppq,
            final(self).right_clicked_track == old(self).right_clicked_track,
    {
        let (_, _, min_track, max_track) = self.get_selection_range();
        let ghost tn = track_notes(tracks@);
        let ghost t0 = tracks@;
        let ghost sel = selected@;
        let mut tmp_ghosts: Vec<(u16, Vec<Note>)> = Vec::new();
        let mut trk: u16 = min_track;
        while trk < max_track
            invariant
                tn == track_notes(t0),
                sel == selected@,
                min_track <= trk,
                tracks@.len() == t0.len(),
                same_but_notes(tracks@, t0),
                forall|k: int| 0 <= k < t0.len() ==> #[trigger] track_notes(tracks@)[k] == if min_track <= k < trk {
                    picked(tn[k], sel, k).1
                } else {
                    tn[k]
                },
                ghosts_view(tmp_ghosts@) == Seq::new((trk - min_track) as nat, |i: int| ((min_track + i) as u16, picked(tn[min_track + i], sel, min_track + i).0)),
                trk as int <= t0.len() || trk == min_track,
                trk <= max_track,
            ensures
                trk >= max_track || trk as int >= t0.len(),
            decreases max_track - trk,
        {
            if trk as usize >= tracks.len() {
                break;
            }
            let ghost before_tracks = tracks@;
            let ghost before_ghosts = tmp_ghosts@;
            assert(track_notes(before_tracks)[trk as int] == tn[trk as int]);
            assert(track_notes(before_tracks)[trk as int] == before_tracks[trk as int].notes@);
            let mut track = MIDITrack::new_empty();
            std::mem::swap(&mut track, &mut tracks[trk as usize]);
            let mut notes: Vec<Note> = Vec::new();
            std::mem::swap(&mut notes, &mut track.notes);
            assert(notes@ == tn[trk as int]);
            let (tg, new_notes) = match selected.get_selected_ids_in_track(trk) {
                Some(ids) => extract(notes, ids.as_slice()),
                None => (Vec::new(), notes),
            };
            assert(tg@ == picked(tn[trk as int], sel, trk as int).0);
            assert(new_notes@ == picked(tn[trk as int], sel, trk as int).1);
            track.notes = new_notes;
            tracks.set(trk as usize, track);
            tmp_ghosts.push((trk, tg));
            proof {
                assert forall|k: int| 0 <= k < t0.len() implies #[trigger] track_notes(tracks@)[k] == if min_track <= k < trk + 1 {
                    picked(tn[k], sel, k).1
                } else {
                    tn[k]
                } by {
                    if k != trk as int {
                        assert(tracks@[k] == before_tracks[k]);
                        assert(track_notes(tracks@)[k] == track_notes(before_tracks)[k]);
                    }
                }
                assert forall|k: int| 0 <= k < tracks@.len() implies (#[trigger] tracks@[k]).channel_events@ == t0[k].channel_events@
                    && tracks@[k].muted == t0[k].muted by {
                    if k != trk as int {
                        assert(tracks@[k] == before_tracks[k]);
                    }
                }
                let target_prev = Seq::new((trk - min_track) as nat, |i: int| ((min_track + i) as u16, picked(tn[min_track + i], sel, min_track + i).0));
                let target = Seq::new(((trk + 1) - min_track) as nat, |i: int| ((min_track + i) as u16, picked(tn[min_track + i], sel, min_track + i).0));
                assert(ghosts_view(before_ghosts) == target_prev);
                assert(ghosts_view(tmp_ghosts@) =~= ghosts_view(before_ghosts).push((trk, picked(tn[trk as int], sel, trk as int).0)));
                assert(target =~= target_prev.push((trk, picked(tn[trk as int], sel, trk as int).0)));
                assert(ghosts_view(tmp_ghosts@) =~= target);
            }
            trk = trk + 1;
        }
        selected.clear_selected();
        self.ghost_notes = tmp_ghosts;
        proof {
            let end = pick_end(tn.len() as int, max_track as int);
            assert(trk as int == if end > min_track { end } else { min_track as int });
            assert(ghosts_view(self.ghost_notes@) =~= picked_ghosts(tn, sel, min_track as int, max_track as int));
            assert(track_notes(tracks@) =~= picked_tracks(tn, sel, min_track as int, max_track as int));
        }
    }

    /// Merges the ghost notes back into their tracks, each track's merged
    /// notes becoming its selection; returns where they went, per track.
    pub fn apply_ghost_notes(&mut self, tracks: &mut Vec<MIDITrack>, selected: &mut SharedSelectedNotes) -> (r: Vec<(u16, Vec<usize>)>)
        requires
            merged_ghosts(track_notes(old(tracks)@), old(selected)@, ghosts_view(old(self).ghost_notes@), old(self).ghost_notes@.len() as int) is Some,
        ensures
            ({
                let m = merged_ghosts(track_notes(old(tracks)@), old(selected)@, ghosts_view(old(self).ghost_notes@), old(self).ghost_notes@.len() as int)->0;
                &&& track_notes(final(tracks)@) == m.0
                &&& final(selected)@ == m.1
                &&& ids_pairs_view(r@) == m.2
            }),
            same_but_notes(final(tracks)@, old(tracks)@),
            final(self).ghost_notes@.len() == 0,
            final(self).flags == old(self).flags,
            final(self).selection_range == old(self).selection_range,
            final(self).draw_select_box == old(self).draw_select_box,
            final(self).has_selection == old(self).has_selection,
            final(self).ppq == old(self).ppq,
            final(self).right_clicked_track == old(self).right_clicked_track,
    {
        let mut ghosts: Vec<(u16, Vec<Note>)> = Vec::new();
        std::mem::swap(&mut ghosts, &mut self.ghost_notes);
        let ghost gs = ghosts_view(ghosts@);
        let ghost tn = track_notes(tracks@);
        let ghost t0 = tracks@;
        let ghost sel0 = selected@;
        let n = ghosts.len();
        let mut rest = crate::timed_seq::reversed(ghosts);
        let ghost all = rest@.reverse();
        proof {
            assert(all =~= ghosts@) by {
                assert(rest@.reverse() =~= ghosts@.reverse().reverse());
            }
        }
        let mut trk_ids: Vec<(u16, Vec<usize>)> = Vec::new();
        for k in 0..n
            invariant
                n == all.len(),
                gs == ghosts_view(all),
                rest@ == all.subrange(k as int, n as int).reverse(),
                merged_ghosts(tn, sel0, gs, n as int) is Some,
                same_but_notes(tracks@, t0),
                ({
                    let m = merged_ghosts(tn, sel0, gs, k as int)->0;
                    &&& track_notes(tracks@) == m.0
                    &&& selected@ == m.1
                    &&& ids_pairs_view(trk_ids@) == m.2
                }),
        {
            proof {
                lemma_merged_ghosts_prefix(tn, sel0, gs, k as int, n as int);
                lemma_merged_ghosts_prefix(tn, sel0, gs, (k + 1) as int, n as int);
            }
            let ghost before_tracks = tracks@;
            let ghost before_ids = trk_ids@;
            let (trk, notes) = rest.pop().unwrap();
            proof {
                assert(rest@ =~= all.subrange(k + 1, n as int).reverse());
                assert((trk, notes) == all[k as int]);
                assert(gs[k as int] == (trk, notes@));
            }
            let mut track = MIDITrack::new_empty();
            std::mem::swap(&mut track, &mut tracks[trk as usize]);
            let mut old_notes: Vec<Note> = Vec::new();
            std::mem::swap(&mut old_notes, &mut track.notes);
            let (merged, ids) = merge_notes_and_return_ids(old_notes, notes);
            track.notes = merged;
            tracks.set(trk as usize, track);
            let ids_copy = copy_ids(&ids);
            selected.set_selected_in_track(ids_copy, trk);
            trk_ids.push((trk, ids));
            proof {
                let m0 = merged_ghosts(tn, sel0, gs, k as int)->0;
                let pos = ints_as_usizes(merge_positions(m0.0[trk as int], notes@));
                assert(ids@ =~= pos) by {
                    assert(usizes_as_ints(ids@) == merge_positions(m0.0[trk as int], notes@));
                    crate::timed_seq::lemma_merge_positions(m0.0[trk as int], notes@);
                    assert forall|i: int| 0 <= i < ids@.len() implies ids@[i] == pos[i] by {
                        assert(usizes_as_ints(ids@)[i] == ids@[i] as int);
                    }
                }
                assert(track_notes(tracks@) =~= m0.0.update(trk as int, merge_spec(m0.0[trk as int], notes@))) by {
                    assert forall|j: int| 0 <= j < tracks@.len() implies #[trigger] track_notes(tracks@)[j] == m0.0.update(trk as int, merge_spec(m0.0[trk as int], notes@))[j] by {
                        if j != trk as int {
                            assert(tracks@[j] == before_tracks[j]);
                            assert(track_notes(before_tracks)[j] == m0.0[j]);
                        }
                    }
                }
                assert(ids_pairs_view(trk_ids@) =~= ids_pairs_view(before_ids).push((trk, pos)));
                assert forall|j: int| 0 <= j < tracks@.len() implies (#[trigger] tracks@[j]).channel_events@ == t0[j].channel_events@
                    && tracks@[j].muted == t0[j].muted by {
                    if j != trk as int {
                        assert(tracks@[j] == before_tracks[j]);
                    }
                }
            }
        }
        trk_ids
    }

    /// A press with the selector: inside the selection, the selection is
    /// picked up to be moved and the press position (snapped) remembered;
    /// elsewhere a selection box starts (the old selection is dropped unless
    /// shift is held).
    pub fn select_mouse_down(
        &mut self,
        mouse: &mut TrackEditMouseInfo,
        tracks: &mut Vec<MIDITrack>,
        selected: &mut SharedSelectedNotes,
        snap_ratio: (u8, u16),
    )
        requires
            snap_ok(old(self).ppq, snap_ratio, signed_tick(old(mouse).mouse_midi_track_pos.0)),
            old(self).has_selection ==> range_ok(old(self).selection_range),
        ensures
            select_down_effect(
                old(self).view_state(),
                *old(mouse),
                old(tracks)@,
                old(selected)@,
                snap_ratio,
                final(self).view_state(),
                *final(mouse),
                final(tracks)@,
                final(selected)@,
            ),
    {
        let shift_down = self.flags & TRACK_EDIT_SHIFT_DOWN != 0;
        let mouse_over_selection = self.is_mouse_over_select_area(mouse);
        if !mouse_over_selection {
            if !shift_down {
                self.deselect_all(selected);
            }
            self.init_selection_box(mouse.mouse_midi_track_pos, snap_ratio);
            self.flags = self.flags & !TRACK_EDIT_SELECTION_MOVE;
        } else {
            self.selected_notes_to_ghost_notes(tracks, selected);
            let tick: i32 = #[verifier::truncate] (mouse.mouse_midi_track_pos.0 as i32);
            let snapped_tick = self.snap_tick(tick, snap_ratio) as MIDITick;
            mouse.last_mouse_click_pos = (snapped_tick, mouse.mouse_midi_track_pos.1);
            self.flags = self.flags | TRACK_EDIT_SELECTION_MOVE;
        }
    }

    /// A mouse move with the selector: the selection box follows the mouse
    /// unless the selection is being moved.
    pub fn select_mouse_move(&mut self, mouse: &TrackEditMouseInfo, snap_ratio: (u8, u16))
        requires
            old(self).flags & TRACK_EDIT_SELECTION_MOVE == 0 ==> snap_ok(old(self).ppq, snap_ratio, signed_tick(mouse.mouse_midi_track_pos.0)),
        ensures
            final(self).view_state() == select_moved(old(self).view_state(), *mouse, snap_ratio),
    {
        if self.flags & TRACK_EDIT_SELECTION_MOVE == 0 {
            self.update_selection_box(mouse.mouse_midi_track_pos, snap_ratio);
        }
    }

    /// A release with the selector: a moved selection is merged back where
    /// it was moved; otherwise the notes in the box become the selection
    /// (added to it with shift).
    pub fn select_mouse_up(&mut self, tracks: &mut Vec<MIDITrack>, selected: &mut SharedSelectedNotes)
        requires
            select_up_ok(old(self).view_state(), old(tracks)@, old(selected)@),
        ensures
            select_up_effect(
                old(self).view_state(),
                old(tracks)@,
                old(selected)@,
                final(self).view_state(),
                final(tracks)@,
                final(selected)@,
            ),
    {
        if self.flags & TRACK_EDIT_SELECTION_MOVE != 0 {
            let ghost v = self.view_state();
            let _ = self.apply_ghost_notes(tracks, selected);
            assert(self.view_state().ghosts =~= Seq::<(u16, Seq<Note>)>::empty());
        } else {
            let shift_down = self.flags & TRACK_EDIT_SHIFT_DOWN != 0;
            if !shift_down {
                self.deselect_all(selected);
            }
            self.draw_select_box = false;
            let region = self.get_selection_range();
            let ghost base = selected@;
            match get_note_ids_in_region(tracks, region) {
                Some(pairs) => {
                    self.has_selection = true;
                    let ghost pv = ids_pairs_view(pairs@);
                    proof {
                        lemma_region_tracks(track_notes(tracks@), region.0, region.1, region.2 as int, region.3 as int);
                    }
                    let n = pairs.len();
                    let mut rest = crate::timed_seq::reversed(pairs);
                    let ghost all = rest@.reverse();
                    proof {
                        assert(rest@.reverse() =~= pairs@.reverse().reverse());
                        assert(all =~= pairs@);
                    }
                    for k in 0..n
                        invariant
                            n == all.len(),
                            pv == ids_pairs_view(all),
                            rest@ == all.subrange(k as int, n as int).reverse(),
                            forall|i: int, j: int| 0 <= i < j < n ==> pv[i].0 < pv[j].0,
                            !shift_down ==> selected@ == base.union_prefer_right(selection_of_pairs(pv, k as int)),
                            shift_down ==> added_selection(base, pv.subrange(0, k as int), selected@),
                    {
                        let ghost before = selected@;
                        let (t, ids) = rest.pop().unwrap();
                        proof {
                            assert(rest@ =~= all.subrange(k + 1, n as int).reverse());
                            assert((t, ids) == all[k as int]);
                            assert(pv[k as int] == (t, ids@));
                        }
                        if shift_down {
                            selected.add_selected_to_track(ids, t);
                            proof {
                                let pk = pv.subrange(0, k as int);
                                let pk1 = pv.subrange(0, k + 1);
                                assert forall|tt: u16| #[trigger] selected@.contains_key(tt) <==> (base.contains_key(tt) || exists|i: int| 0 <= i < pk1.len() && pk1[i].0 == tt) by {
                                    if selected@.contains_key(tt) && tt != t {
                                        assert(before.contains_key(tt));
                                        if !base.contains_key(tt) {
                                            let i = choose|i: int| 0 <= i < pk.len() && pk[i].0 == tt;
                                            assert(pk1[i].0 == tt);
                                        }
                                    }
                                    if tt == t {
                                        assert(pk1[k as int].0 == tt);
                                    }
                                    if exists|i: int| 0 <= i < pk1.len() && pk1[i].0 == tt {
                                        let i = choose|i: int| 0 <= i < pk1.len() && pk1[i].0 == tt;
                                        if i < k {
                                            assert(pk[i].0 == tt);
                                        }
                                    }
                                }
                                assert forall|i: int| 0 <= i < pk1.len() implies {
                                    let tt = #[trigger] pk1[i].0;
                                    &&& strictly_increasing_usize(selected@[tt])
                                    &&& forall|id: usize| #[trigger] selected@[tt].contains(id) <==> (pk1[i].1.contains(id) || (base.contains_key(tt) && base[tt].contains(id)))
                                } by {
                                    if i < k {
                                        assert(pk1[i] == pk[i]);
                                        assert(pv[i].0 < pv[k as int].0);
                                        let tt = pk[i].0;
                                        assert(exists|j: int| 0 <= j < pk.len() && pk[j].0 == tt);
                                        assert(before.contains_key(tt));
                                        assert(selected@[tt] == before[tt]);
                                    } else {
                                        assert(pk1[i] == pv[k as int]);
                                        if before.contains_key(t) {
                                            if !base.contains_key(t) {
                                                let j = choose|j: int| 0 <= j < pk.len() && pk[j].0 == t;
                                                assert(pv[j].0 < pv[k as int].0);
                                            } else {
                                                assert(forall|j: int| 0 <= j < pk.len() ==> pk[j].0 != t) by {
                                                    assert forall|j: int| 0 <= j < pk.len() implies pk[j].0 != t by {
                                                        assert(pv[j].0 < pv[k as int].0);
                                                    }
                                                }
                                                assert(before[t] == base[t]);
                                            }
                                        }
                                    }
                                }
                                assert forall|tt: u16| #[trigger] base.contains_key(tt) && (forall|i: int| 0 <= i < pk1.len() ==> pk1[i].0 != tt) implies selected@[tt] == base[tt] by {
                                    assert(pk1[k as int].0 != tt);
                                    assert forall|i: int| 0 <= i < pk.len() implies pk[i].0 != tt by {
                                        assert(pk1[i].0 != tt);
                                    }
                                    assert(before.contains_key(tt));
                                    assert(before[tt] == base[tt]);
                                }
                            }
                        } else {
                            selected.set_selected_in_track(ids, t);
                            proof {
                                assert(selected@ =~= base.union_prefer_right(selection_of_pairs(pv, k + 1)));
                            }
                        }
                    }
                    proof {
                        assert(pv.subrange(0, n as int) =~= pv);
                        if !shift_down {
                            assert(base =~= Map::<u16, Seq<usize>>::empty());
                            assert(selected@ =~= selection_of_pairs(pv, n as int));
                        }
                    }
                },
                None => {},
            }
        }
    }

    /// Empties the clipboard and remembers where its start lies from the
    /// playhead.
    pub fn prepare_clipboard(&self, clipboard: &mut SharedClipboard, playhead_tick: MIDITick)
        ensures
            final(clipboard)@ == Map::<u16, Seq<Note>>::empty(),
            final(clipboard).offset_spec() as int == prepared_offset(playhead_tick),
    {
        clipboard.clear_clipboard();
        let clipboard_start = clipboard.get_clipboard_start_tick();
        assert(clipboard@.dom() =~= Set::<u16>::empty());
        let start: i32 = #[verifier::truncate] (clipboard_start as i32);
        let playhead: i32 = #[verifier::truncate] (playhead_tick as i32);
        assert(start == -1i32) by (bit_vector)
            requires
                clipboard_start == 0xFFFF_FFFFu32,
                start == #[verifier::truncate] (clipboard_start as i32),
        ;
        clipboard.set_offset_from_playhead(start - playhead);
    }

    /// Copies the selected notes of every track to the clipboard.
    pub fn copy_notes(&self, tracks: &Vec<MIDITrack>, selected: &SharedSelectedNotes, clipboard: &mut SharedClipboard, playhead_tick: MIDITick)
        requires
            selection_in_tracks(selected@, track_notes(tracks@)),
        ensures
            selected@.dom().is_empty() ==> final(clipboard)@ == old(clipboard)@ && final(clipboard).offset_spec() == old(clipboard).offset_spec(),
            !selected@.dom().is_empty() ==> {
                &&& final(clipboard)@ == copied_clipboard(selected@, track_notes(tracks@))
                &&& final(clipboard).offset_spec() as int == prepared_offset(playhead_tick)
            },
    {
        let active_tracks = selected.get_active_selected_tracks();
        if active_tracks.len() == 0 {
            proof {
                assert forall|t: u16| !selected@.contains_key(t) by {
                    if selected@.contains_key(t) {
                        assert(active_tracks@.contains(t));
                    }
                }
                assert(selected@.dom() =~= Set::<u16>::empty());
            }
            return;
        }
        proof {
            assert(active_tracks@.contains(active_tracks@[0]));
            assert(selected@.dom().contains(active_tracks@[0]));
        }
        self.prepare_clipboard(clipboard, playhead_tick);
        let ghost tn = track_notes(tracks@);
        let ghost sel = selected@;
        let n = active_tracks.len();
        for i in 0..n
            invariant
                n == active_tracks@.len(),
                sel == selected@,
                tn == track_notes(tracks@),
                selection_in_tracks(sel, tn),
                strictly_increasing_u16(active_tracks@),
                forall|t: u16| #[trigger] active_tracks@.contains(t) <==> sel.contains_key(t),
                clipboard.offset_spec() as int == prepared_offset(playhead_tick),
                clipboard@ == Map::new(
                    |t: u16| active_tracks@.subrange(0, i as int).contains(t),
                    |t: u16| notes_at(tn[t as int], sel[t]),
                ),
        {
            let track = active_tracks[i];
            assert(active_tracks@.contains(track));
            let ids = selected.get_selected_ids_in_track(track).unwrap();
            assert(tracks@[track as int].notes@ == tn[track as int]);
            let copied = clone_track_notes(&tracks[track as usize].notes, ids.as_slice());
            let ghost before = clipboard@;
            clipboard.move_notes_to_clipboard(copied, track, false);
            proof {
                assert forall|t: u16| #[trigger] active_tracks@.subrange(0, i + 1).contains(t) <==> (active_tracks@.subrange(0, i as int).contains(t) || t == track) by {
                    if active_tracks@.subrange(0, i + 1).contains(t) {
                        let j = choose|j: int| 0 <= j < i + 1 && #[trigger] active_tracks@.subrange(0, i + 1)[j] == t;
                        if j < i {
                            assert(active_tracks@.subrange(0, i as int)[j] == t);
                        }
                    }
                    if active_tracks@.subrange(0, i as int).contains(t) {
                        let j = choose|j: int| 0 <= j < i && #[trigger] active_tracks@.subrange(0, i as int)[j] == t;
                        assert(active_tracks@.subrange(0, i + 1)[j] == t);
                    }
                    if t == track {
                        assert(active_tracks@.subrange(0, i + 1)[i as int] == t);
                    }
                }
                assert(clipboard@ =~= Map::new(
                    |t: u16| active_tracks@.subrange(0, i + 1).contains(t),
                    |t: u16| notes_at(tn[t as int], sel[t]),
                ));
            }
        }
        proof {
            assert(active_tracks@.subrange(0, n as int) =~= active_tracks@);
            assert(clipboard@ =~= copied_clipboard(sel, tn));
        }
    }

    /// Cuts the selected notes of every track to the clipboard; the
    /// selections are emptied and the deletions recorded as one action.
    pub fn cut_notes(
        &self,
        tracks: &mut Vec<MIDITrack>,
        selected: &mut SharedSelectedNotes,
        clipboard: &mut SharedClipboard,
        playhead_tick: MIDITick,
        editor_actions: &mut EditorActions,
    )
        requires
            selection_tracks_exist(old(selected)@, track_notes(old(tracks)@)),
            old(editor_actions).wf(),
            old(editor_actions).max_actions_spec() > 0,
        ensures
            old(selected)@.dom().is_empty() ==> {
                &&& final(clipboard)@ == old(clipboard)@ && final(clipboard).offset_spec() == old(clipboard).offset_spec()
                &&& final(tracks)@ == old(tracks)@ && final(selected)@ == old(selected)@ && *final(editor_actions) == *old(editor_actions)
            },
            !old(selected)@.dom().is_empty() ==> {
                let sel = old(selected)@;
                let tn = track_notes(old(tracks)@);
                &&& final(clipboard)@ == cut_clipboard(sel, tn)
                &&& final(clipboard).offset_spec() as int == prepared_offset(playhead_tick)
                &&& track_notes(final(tracks)@) == cut_tracks(sel, tn)
                &&& same_but_notes(final(tracks)@, old(tracks)@)
                &&& final(selected)@ == Map::new(|t: u16| sel.contains_key(t), |t: u16| Seq::<usize>::empty())
                &&& exists|ks: Seq<u16>| ascending_keys(ks, sel) && final(editor_actions).registered_from(
                    old(editor_actions),
                    ActionView::Bulk(cut_actions(sel, tn, ks, ks.len() as int)),
                )
            },
    {
        let active_tracks = selected.get_active_selected_tracks();
        if active_tracks.len() == 0 {
            proof {
                assert forall|t: u16| !selected@.contains_key(t) by {
                    if selected@.contains_key(t) {
                        assert(active_tracks@.contains(t));
                    }
                }
                assert(selected@.dom() =~= Set::<u16>::empty());
            }
            return;
        }
        proof {
            assert(active_tracks@.contains(active_tracks@[0]));
            assert(selected@.dom().contains(active_tracks@[0]));
        }
        self.prepare_clipboard(clipboard, playhead_tick);
        let ghost tn = track_notes(tracks@);
        let ghost t0 = tracks@;
        let ghost sel = selected@;
        let mut actions: Vec<EditorAction> = Vec::new();
        let n = active_tracks.len();
        for i in 0..n
            invariant
                n == active_tracks@.len(),
                strictly_increasing_u16(active_tracks@),
                forall|t: u16| #[trigger] active_tracks@.contains(t) <==> sel.contains_key(t),
                selection_tracks_exist(sel, tn),
                tn.len() == t0.len(),
                same_but_notes(tracks@, t0),
                clipboard.offset_spec() as int == prepared_offset(playhead_tick),
                clipboard@ == Map::new(
                    |t: u16| active_tracks@.subrange(0, i as int).contains(t) && sel[t].len() > 0,
                    |t: u16| extract_spec(tn[t as int], sel[t]).0,
                ),
                forall|k: int| 0 <= k < tn.len() ==> #[trigger] track_notes(tracks@)[k] == if 0 <= k <= u16::MAX && active_tracks@.subrange(0, i as int).contains(k as u16) && sel[k as u16].len() > 0 {
                    extract_spec(tn[k], sel[k as u16]).1
                } else {
                    tn[k]
                },
                forall|t: u16| #[trigger] selected@.contains_key(t) <==> sel.contains_key(t),
                forall|t: u16| #[trigger] selected@.contains_key(t) ==> selected@[t] == if active_tracks@.subrange(0, i as int).contains(t) {
                    Seq::<usize>::empty()
                } else {
                    sel[t]
                },
                actions_view(actions@) == cut_actions(sel, tn, active_tracks@, i as int),
        {
            let track = active_tracks[i];
            proof {
                assert(active_tracks@.contains(track));
                assert(!active_tracks@.subrange(0, i as int).contains(track)) by {
                    if active_tracks@.subrange(0, i as int).contains(track) {
                        let j = choose|j: int| 0 <= j < i && #[trigger] active_tracks@.subrange(0, i as int)[j] == track;
                        assert(active_tracks@[j] < active_tracks@[i as int]);
                    }
                }
            }
            let ghost before_tracks = tracks@;
            let ghost before_clip = clipboard@;
            let ghost before_actions = actions@;
            let ids = selected.take_selected_from_track(track);
            assert(ids@ == sel[track]);
            proof {
                assert forall|t: u16| #[trigger] active_tracks@.subrange(0, i + 1).contains(t) <==> (active_tracks@.subrange(0, i as int).contains(t) || t == track) by {
                    if active_tracks@.subrange(0, i + 1).contains(t) {
                        let j = choose|j: int| 0 <= j < i + 1 && #[trigger] active_tracks@.subrange(0, i + 1)[j] == t;
                        if j < i {
                            assert(active_tracks@.subrange(0, i as int)[j] == t);
                        }
                    }
                    if active_tracks@.subrange(0, i as int).contains(t) {
                        let j = choose|j: int| 0 <= j < i && #[trigger] active_tracks@.subrange(0, i as int)[j] == t;
                        assert(active_tracks@.subrange(0, i + 1)[j] == t);
                    }
                    if t == track {
                        assert(active_tracks@.subrange(0, i + 1)[i as int] == t);
                    }
                }
            }
            if ids.len() > 0 {
                assert(track_notes(before_tracks)[track as int] == tn[track as int]);
                assert(track_notes(before_tracks)[track as int] == before_tracks[track as int].notes@);
                let mut trk = MIDITrack::new_empty();
                std::mem::swap(&mut trk, &mut tracks[track as usize]);
                let mut old_notes: Vec<Note> = Vec::new();
                std::mem::swap(&mut old_notes, &mut trk.notes);
                let (cut, retained) = extract(old_notes, ids.as_slice());
                let cut_copy = copy_note_vec(&cut);
                clipboard.move_notes_to_clipboard(cut_copy, track, false);
                trk.notes = retained;
                tracks.set(track as usize, trk);
                actions.push(EditorAction::DeleteNotes(ids, Some(cut), track));
                proof {
                    assert(clipboard@ =~= Map::new(
                        |t: u16| active_tracks@.subrange(0, i + 1).contains(t) && sel[t].len() > 0,
                        |t: u16| extract_spec(tn[t as int], sel[t]).0,
                    ));
                    assert forall|k: int| 0 <= k < tn.len() implies #[trigger] track_notes(tracks@)[k] == if 0 <= k <= u16::MAX && active_tracks@.subrange(0, i + 1).contains(k as u16) && sel[k as u16].len() > 0 {
                        extract_spec(tn[k], sel[k as u16]).1
                    } else {
                        tn[k]
                    } by {
                        if k != track as int {
                            assert(tracks@[k] == before_tracks[k]);
                            assert(track_notes(before_tracks)[k] == track_notes(tracks@)[k]);
                            if 0 <= k <= u16::MAX {
                                assert((k as u16) != track);
                            }
                        } else {
                            assert((k as u16) == track);
                        }
                    }
                    assert forall|j: int| 0 <= j < tracks@.len() implies (#[trigger] tracks@[j]).channel_events@ == t0[j].channel_events@
                        && tracks@[j].muted == t0[j].muted by {
                        if j != track as int {
                            assert(tracks@[j] == before_tracks[j]);
                        }
                    }
                    assert(actions_view(actions@) =~= actions_view(before_actions).push(
                        ActionView::DeleteNotes(sel[track], Some(extract_spec(tn[track as int], sel[track]).0), track),
                    ));
                }
            } else {
                    proof {
                        assert(clipboard@ =~= Map::new(
                            |t: u16| active_tracks@.subrange(0, i + 1).contains(t) && sel[t].len() > 0,
                            |t: u16| extract_spec(tn[t as int], sel[t]).0,
                        ));
                    }
            }
        }
        let ghost acts = actions_view(actions@);
        let bulk = EditorAction::Bulk(actions);
        proof {
            if let ActionView::Bulk(inner) = bulk@ {
                assert(inner =~= acts);
            }
            assert(bulk@ == ActionView::Bulk(acts));
        }
        editor_actions.register_action(bulk);
        proof {
            assert(active_tracks@.subrange(0, n as int) =~= active_tracks@);
            assert(clipboard@ =~= cut_clipboard(sel, tn));
            assert(track_notes(tracks@) =~= cut_tracks(sel, tn));
            assert(selected@ =~= Map::new(|t: u16| sel.contains_key(t), |t: u16| Seq::<usize>::empty()));
            assert(ascending_keys(active_tracks@, sel));
        }
    }

    /// Deletes the selected notes of every track and drops the selection;
    /// the deletions are recorded as one action (also when nothing was
    /// selected).
    pub fn delete_selection(
        &mut self,
        tracks: &mut Vec<MIDITrack>,
        selected: &mut SharedSelectedNotes,
        editor_actions: &mut EditorActions,
    )
        requires
            selection_tracks_exist(old(selected)@, track_notes(old(tracks)@)),
            old(editor_actions).wf(),
            old(editor_actions).max_actions_spec() > 0,
        ensures
            ({
                let sel = old(selected)@;
                let tn = track_notes(old(tracks)@);
                &&& track_notes(final(tracks)@) == cut_tracks(sel, tn)
                &&& same_but_notes(final(tracks)@, old(tracks)@)
                &&& final(selected)@ == Map::<u16, Seq<usize>>::empty()
                &&& final(self).view_state() == (TrackEditView { has_selection: false, ..old(self).view_state() })
                &&& exists|ks: Seq<u16>| ascending_keys(ks, sel) && final(editor_actions).registered_from(
                    old(editor_actions),
                    ActionView::Bulk(delete_actions(sel, tn, ks, ks.len() as int)),
                )
            }),
    {
        let active_tracks = selected.get_active_selected_tracks();
        let ghost tn = track_notes(tracks@);
        let ghost t0 = tracks@;
        let ghost sel = selected@;
        let mut actions: Vec<EditorAction> = Vec::new();
        let n = active_tracks.len();
        for i in 0..n
            invariant
                n == active_tracks@.len(),
                strictly_increasing_u16(active_tracks@),
                forall|t: u16| #[trigger] active_tracks@.contains(t) <==> sel.contains_key(t),
                selection_tracks_exist(sel, tn),
                tn.len() == t0.len(),
                same_but_notes(tracks@, t0),
                forall|k: int| 0 <= k < tn.len() ==> #[trigger] track_notes(tracks@)[k] == if 0 <= k <= u16::MAX && active_tracks@.subrange(0, i as int).contains(k as u16) {
                    extract_spec(tn[k], sel[k as u16]).1
                } else {
                    tn[k]
                },
                forall|t: u16| #[trigger] selected@.contains_key(t) <==> sel.contains_key(t),
                forall|t: u16| #[trigger] selected@.contains_key(t) ==> selected@[t] == if active_tracks@.subrange(0, i as int).contains(t) {
                    Seq::<usize>::empty()
                } else {
                    sel[t]
                },
                actions_view(actions@) == delete_actions(sel, tn, active_tracks@, i as int),
        {
            let track = active_tracks[i];
            proof {
                assert(active_tracks@.contains(track));
                assert(!active_tracks@.subrange(0, i as int).contains(track)) by {
                    if active_tracks@.subrange(0, i as int).contains(track) {
                        let j = choose|j: int| 0 <= j < i && #[trigger] active_tracks@.subrange(0, i as int)[j] == track;
                        assert(active_tracks@[j] < active_tracks@[i as int]);
                    }
                }
                assert forall|t: u16| #[trigger] active_tracks@.subrange(0, i + 1).contains(t) <==> (active_tracks@.subrange(0, i as int).contains(t) || t == track) by {
                    if active_tracks@.subrange(0, i + 1).contains(t) {
                        let j = choose|j: int| 0 <= j < i + 1 && #[trigger] active_tracks@.subrange(0, i + 1)[j] == t;
                        if j < i {
                            assert(active_tracks@.subrange(0, i as int)[j] == t);
                        }
                    }
                    if active_tracks@.subrange(0, i as int).contains(t) {
                        let j = choose|j: int| 0 <= j < i && #[trigger] active_tracks@.subrange(0, i as int)[j] == t;
                        assert(active_tracks@.subrange(0, i + 1)[j] == t);
                    }
                    if t == track {
                        assert(active_tracks@.subrange(0, i + 1)[i as int] == t);
                    }
                }
            }
            let ghost before_tracks = tracks@;
            let ghost before_actions = actions@;
            let ids = selected.take_selected_from_track(track);
            assert(ids@ == sel[track]);
            assert(track_notes(before_tracks)[track as int] == tn[track as int]);
            assert(track_notes(before_tracks)[track as int] == before_tracks[track as int].notes@);
            let mut trk = MIDITrack::new_empty();
            std::mem::swap(&mut trk, &mut tracks[track as usize]);
            let mut old_notes: Vec<Note> = Vec::new();
            std::mem::swap(&mut old_notes, &mut trk.notes);
            let (deleted, kept) = extract(old_notes, ids.as_slice());
            trk.notes = kept;
            tracks.set(track as usize, trk);
            actions.push(EditorAction::DeleteNotes(ids, Some(deleted), track));
            proof {
                assert forall|k: int| 0 <= k < tn.len() implies #[trigger] track_notes(tracks@)[k] == if 0 <= k <= u16::MAX && active_tracks@.subrange(0, i + 1).contains(k as u16) {
                    extract_spec(tn[k], sel[k as u16]).1
                } else {
                    tn[k]
                } by {
                    if k != track as int {
                        assert(tracks@[k] == before_tracks[k]);
                        assert(track_notes(before_tracks)[k] == track_notes(tracks@)[k]);
                        if 0 <= k <= u16::MAX {
                            assert((k as u16) != track);
                        }
                    } else {
                        assert((k as u16) == track);
                    }
                }
                assert forall|j: int| 0 <= j < tracks@.len() implies (#[trigger] tracks@[j]).channel_events@ == t0[j].channel_events@
                    && tracks@[j].muted == t0[j].muted by {
                    if j != track as int {
                        assert(tracks@[j] == before_tracks[j]);
                    }
                }
                assert(actions_view(actions@) =~= actions_view(before_actions).push(
                    ActionView::DeleteNotes(sel[track], Some(extract_spec(tn[track as int], sel[track]).0), track),
                ));
            }
        }
        let ghost acts = actions_view(actions@);
        let bulk = EditorAction::Bulk(actions);
        proof {
            if let ActionView::Bulk(inner) = bulk@ {
                assert(inner =~= acts);
            }
            assert(bulk@ == ActionView::Bulk(acts));
        }
        editor_actions.register_action(bulk);
        self.deselect_all(selected);
        proof {
            assert(active_tracks@.subrange(0, n as int) =~= active_tracks@);
            assert forall|k: int| 0 <= k < tn.len() implies #[trigger] track_notes(tracks@)[k] == cut_tracks(sel, tn)[k] by {
                if 0 <= k <= u16::MAX && sel.contains_key(k as u16) && sel[k as u16].len() == 0 {
                    lemma_extract_nothing(tn[k], sel[k as u16]);
                }
            }
            assert(track_notes(tracks@) =~= cut_tracks(sel, tn));
            assert(selected@ =~= Map::<u16, Seq<usize>>::empty());
            assert(ascending_keys(active_tracks@, sel));
        }
    }

    /// Pastes the clipboard's tracks from `base_track` on, keeping their
    /// distances: each track's notes are moved to the playhead (by the
    /// clipboard's offset), merged into their destination track and
    /// selected there; destination tracks past the last are appended. The
    /// appended tracks and the placements are recorded as one action.
    pub fn paste_notes(
        &mut self,
        base_track: u16,
        tracks: &mut Vec<MIDITrack>,
        selected: &mut SharedSelectedNotes,
        clipboard: &SharedClipboard,
        playhead_tick: MIDITick,
        editor_actions: &mut EditorActions,
    )
        requires
            old(tracks)@.len() <= u16::MAX,
            forall|ks: Seq<u16>| ascending_keys(ks, clipboard@) ==> paste_fold(
                track_notes(old(tracks)@),
                old(selected)@,
                clipboard@,
                ks,
                base_track,
                old(tracks)@.len() as int,
                playhead_tick,
                clipboard.offset_spec(),
                ks.len() as int,
            ) is Some,
            old(editor_actions).wf(),
            old(editor_actions).max_actions_spec() > 0,
        ensures
            clipboard@.dom().is_empty() ==> {
                &&& final(tracks)@ == old(tracks)@ && final(selected)@ == old(selected)@ && *final(editor_actions) == *old(editor_actions)
            },
            !clipboard@.dom().is_empty() ==> exists|ks: Seq<u16>| {
                &&& ascending_keys(ks, clipboard@)
                &&& #[trigger] paste_fold(
                    track_notes(old(tracks)@),
                    old(selected)@,
                    clipboard@,
                    ks,
                    base_track,
                    old(tracks)@.len() as int,
                    playhead_tick,
                    clipboard.offset_spec(),
                    ks.len() as int,
                ) matches Some((tn2, sel2, ta, pa)) && {
                    &&& track_notes(final(tracks)@) == tn2
                    &&& final(selected)@ == sel2
                    &&& final(editor_actions).registered_from(old(editor_actions), ActionView::Bulk(ta + pa))
                }
            },
            grown_tracks(final(tracks)@, old(tracks)@),
            final(self).view_state() == old(self).view_state(),
    {
        let copied = clipboard.get_notes_from_clipboard();
        let offset = clipboard.get_offset_from_playhead();
        let ghost ks = crate::shared_editing::pair_tracks(copied@);
        let ghost cb = clipboard@;
        let ghost tn = track_notes(tracks@);
        let ghost t0 = tracks@;
        let ghost sel0 = selected@;
        proof {
            assert(ascending_keys(ks, cb));
        }
        if copied.len() == 0 {
            proof {
                assert forall|t: u16| !cb.contains_key(t) by {
                    if cb.contains_key(t) {
                        assert(ks.contains(t));
                    }
                }
                assert(cb.dom() =~= Set::<u16>::empty());
            }
            return;
        }
        let first_track = copied[0].0;
        let num_tracks = tracks.len() as u16;
        let n = copied.len();
        let ghost num = t0.len() as int;
        let mut rest = crate::timed_seq::reversed(copied);
        let ghost all = rest@.reverse();
        proof {
            assert(rest@.reverse() =~= copied@.reverse().reverse());
            assert(all =~= copied@);
            assert(ks.len() == n);
            assert(first_track == ks[0]);
            assert(ks.contains(first_track));
            assert(cb.dom().contains(first_track));
            assert(!cb.dom().is_empty());
        }
        let mut track_actions: Vec<EditorAction> = Vec::new();
        let mut actions: Vec<EditorAction> = Vec::new();
        for k in 0..n
            invariant
                n == all.len(),
                n > 0,
                ks == crate::shared_editing::pair_tracks(all),
                !cb.dom().is_empty(),
                forall|i: int| 0 <= i < all.len() ==> cb[#[trigger] all[i].0] == all[i].1@,
                ascending_keys(ks, cb),
                first_track == ks[0],
                num == num_tracks as int,
                offset == clipboard.offset_spec(),
                cb == clipboard@,
                rest@ == all.subrange(k as int, n as int).reverse(),
                paste_fold(tn, sel0, cb, ks, base_track, num, playhead_tick, offset, n as int) is Some,
                grown_tracks(tracks@, t0),
                ({
                    let f = paste_fold(tn, sel0, cb, ks, base_track, num, playhead_tick, offset, k as int)->0;
                    &&& track_notes(tracks@) == f.0
                    &&& selected@ == f.1
                    &&& actions_view(track_actions@) == f.2
                    &&& actions_view(actions@) == f.3
                }),
        {
            proof {
                lemma_paste_fold_prefix(tn, sel0, cb, ks, base_track, num, playhead_tick, offset, k as int, n as int);
                lemma_paste_fold_prefix(tn, sel0, cb, ks, base_track, num, playhead_tick, offset, (k + 1) as int, n as int);
            }
            let ghost before_tracks = tracks@;
            let ghost before_ta = track_actions@;
            let ghost before_pa = actions@;
            let (src_track, notes_vec) = rest.pop().unwrap();
            proof {
                assert(rest@ =~= all.subrange(k + 1, n as int).reverse());
                assert((src_track, notes_vec) == all[k as int]);
                assert(ks[k as int] == src_track);
                assert(cb[src_track] == notes_vec@);
            }
            let rel = src_track - first_track;
            let dest_track = base_track + rel;
            if dest_track >= num_tracks {
                tracks.push(MIDITrack::new_empty());
                track_actions.push(EditorAction::AddTrack(dest_track, None, false));
                proof {
                    assert(tracks@[before_tracks.len() as int].notes@ =~= Seq::<Note>::empty());
                    assert forall|j: int| 0 <= j < tracks@.len() implies #[trigger] track_notes(tracks@)[j] == track_notes(before_tracks).push(Seq::<Note>::empty())[j] by {
                        if j < before_tracks.len() {
                            assert(tracks@[j] == before_tracks[j]);
                        }
                    }
                    assert(track_notes(tracks@) =~= track_notes(before_tracks).push(Seq::<Note>::empty()));
                    assert(actions_view(track_actions@) =~= actions_view(before_ta).push(ActionView::AddTrack(dest_track, None, false)));
                }
            }
            let ghost mid_tracks = tracks@;
            assert(track_notes(mid_tracks)[dest_track as int] == mid_tracks[dest_track as int].notes@);
            let mut trk = MIDITrack::new_empty();
            std::mem::swap(&mut trk, &mut tracks[dest_track as usize]);
            let mut old_notes: Vec<Note> = Vec::new();
            std::mem::swap(&mut old_notes, &mut trk.notes);
            let shifted = shift_notes(notes_vec, playhead_tick, offset);
            let (new_notes, new_ids) = merge_notes_and_return_ids(old_notes, shifted);
            trk.notes = new_notes;
            tracks.set(dest_track as usize, trk);
            let ids_copy = copy_ids(&new_ids);
            selected.set_selected_in_track(ids_copy, dest_track);
            actions.push(EditorAction::PlaceNotes(new_ids, None, dest_track));
            proof {
                let f0 = paste_fold(tn, sel0, cb, ks, base_track, num, playhead_tick, offset, k as int)->0;
                let t2 = if dest_track as int >= num { f0.0.push(Seq::<Note>::empty()) } else { f0.0 };
                let p = pasted_notes(notes_vec@, playhead_tick, offset);
                let pos = ints_as_usizes(merge_positions(t2[dest_track as int], p));
                assert(track_notes(mid_tracks) == t2);
                assert(new_ids@ =~= pos) by {
                    crate::timed_seq::lemma_merge_positions(t2[dest_track as int], p);
                    assert forall|i: int| 0 <= i < new_ids@.len() implies new_ids@[i] == pos[i] by {
                        assert(usizes_as_ints(new_ids@)[i] == new_ids@[i] as int);
                    }
                }
                assert(track_notes(tracks@) =~= t2.update(dest_track as int, merge_spec(t2[dest_track as int], p))) by {
                    assert forall|j: int| 0 <= j < tracks@.len() implies #[trigger] track_notes(tracks@)[j] == t2.update(dest_track as int, merge_spec(t2[dest_track as int], p))[j] by {
                        if j != dest_track as int {
                            assert(tracks@[j] == mid_tracks[j]);
                            assert(track_notes(mid_tracks)[j] == t2[j]);
                        }
                    }
                }
                assert(actions_view(actions@) =~= actions_view(before_pa).push(ActionView::PlaceNotes(pos, None, dest_track)));
                assert forall|j: int| 0 <= j < t0.len() implies (#[trigger] tracks@[j]).channel_events@ == t0[j].channel_events@
                    && tracks@[j].muted == t0[j].muted by {
                    if j != dest_track as int {
                        assert(tracks@[j] == mid_tracks[j]);
                    }
                }
                assert forall|j: int| t0.len() <= j < tracks@.len() implies (#[trigger] tracks@[j]).channel_events@.len() == 0 && !tracks@[j].muted by {
                    if j != dest_track as int {
                        assert(tracks@[j] == mid_tracks[j]);
                    }
                }
            }
        }
        let ghost ta_view = actions_view(track_actions@);
        let ghost pa_view = actions_view(actions@);
        let mut all_actions = track_actions;
        all_actions.append(&mut actions);
        let bulk = EditorAction::Bulk(all_actions);
        proof {
            if let ActionView::Bulk(inner) = bulk@ {
                assert(inner =~= ta_view + pa_view);
            }
            assert(bulk@ == ActionView::Bulk(ta_view + pa_view));
        }
        editor_actions.register_action(bulk);
    }

    /// The mouse position with its tick snapped to the grid.
    pub fn get_mouse_midi_pos_snapped(&self, mouse: &TrackEditMouseInfo, snap_ratio: (u8, u16)) -> (r: (MIDITick, u16))
        requires
            snap_ok(self.ppq, snap_ratio, signed_tick(mouse.mouse_midi_track_pos.0)),
        ensures
            r == snapped_pos(self.ppq, snap_ratio, mouse.mouse_midi_track_pos),
    {
        let tick: i32 = #[verifier::truncate] (mouse.mouse_midi_track_pos.0 as i32);
        let snapped_tick = self.snap_tick(tick, snap_ratio) as MIDITick;
        (snapped_tick, mouse.mouse_midi_track_pos.1)
    }

    /// A press in the track view. Over the interface it is only noted.
    /// Otherwise the piano roll switches to the track under the mouse and
    /// the returned tick (the snapped mouse tick) is where the playhead
    /// starts; then the selector handles the press.
    pub fn on_mouse_down(
        &mut self,
        tool: EditorTool,
        mouse: &mut TrackEditMouseInfo,
        tracks: &mut Vec<MIDITrack>,
        selected: &mut SharedSelectedNotes,
        curr_track: &mut u16,
        snap_ratio: (u8, u16),
    ) -> (r: Option<MIDITick>)
        requires
            old(self).flags & TRACK_EDIT_MOUSE_OVER_UI == 0 ==> {
                &&& snap_ok(old(self).ppq, snap_ratio, signed_tick(old(mouse).mouse_midi_track_pos.0))
                &&& old(mouse).mouse_midi_track_pos.1 < u16::MAX
                &&& (tool is Selector && old(self).has_selection) ==> range_ok(old(self).selection_range)
            },
        ensures
            old(self).flags & TRACK_EDIT_MOUSE_OVER_UI != 0 ==> {
                &&& final(self).view_state() == (TrackEditView {
                    flags: old(self).flags | TRACK_EDIT_MOUSE_DOWN_ON_UI,
                    ..old(self).view_state()
                })
                &&& r is None
                &&& *final(mouse) == *old(mouse)
                &&& final(tracks)@ == old(tracks)@
                &&& final(selected)@ == old(selected)@
                &&& *final(curr_track) == *old(curr_track)
            },
            old(self).flags & TRACK_EDIT_MOUSE_OVER_UI == 0 ==> {
                let v = old(self).view_state();
                let p = snapped_pos(v.ppq, snap_ratio, old(mouse).mouse_midi_track_pos);
                let sw = switched_to(tracks_contents(old(tracks)@), p.1);
                &&& r == Some(p.0)
                &&& *final(curr_track) == sw.1
                &&& tool is Selector ==> exists|mid: Seq<MIDITrack>| {
                    &&& tracks_contents(mid) == sw.0
                    &&& #[trigger] select_down_effect(
                        v,
                        *old(mouse),
                        mid,
                        old(selected)@,
                        snap_ratio,
                        final(self).view_state(),
                        *final(mouse),
                        final(tracks)@,
                        final(selected)@,
                    )
                }
                &&& !(tool is Selector) ==> {
                    &&& tracks_contents(final(tracks)@) == sw.0
                    &&& final(self).view_state() == v
                    &&& *final(mouse) == *old(mouse)
                    &&& final(selected)@ == old(selected)@
                }
            },
    {
        if self.flags & TRACK_EDIT_MOUSE_OVER_UI != 0 {
            self.flags = self.flags | TRACK_EDIT_MOUSE_DOWN_ON_UI;
            return None;
        }
        let midi_pos = self.get_mouse_midi_pos_snapped(mouse, snap_ratio);
        change_track(tracks, curr_track, midi_pos.1);
        let ghost mid = tracks@;
        match tool {
            EditorTool::Selector => {
                self.select_mouse_down(mouse, tracks, selected, snap_ratio);
                assert(tracks_contents(mid) == switched_to(tracks_contents(old(tracks)@), midi_pos.1).0);
            },
            _ => {},
        }
        Some(midi_pos.0)
    }

    /// A right press outside the interface remembers the track under the
    /// mouse.
    pub fn on_right_mouse_down(&mut self, mouse: &TrackEditMouseInfo)
        ensures
            final(self).view_state() == if old(self).flags & TRACK_EDIT_MOUSE_OVER_UI != 0 {
                old(self).view_state()
            } else {
                TrackEditView { right_clicked_track: mouse.mouse_midi_track_pos.1, ..old(self).view_state() }
            },
    {
        if self.flags & TRACK_EDIT_MOUSE_OVER_UI != 0 {
            return;
        }
        self.right_clicked_track = mouse.mouse_midi_track_pos.1;
    }

    /// A mouse move in the track view, handed to the selector when it
    /// reaches the tools.
    pub fn on_mouse_move(&mut self, tool: EditorTool, mouse: &TrackEditMouseInfo, snap_ratio: (u8, u16))
        requires
            track_event_reaches_tools(old(self).flags) && tool is Selector && old(self).flags & TRACK_EDIT_SELECTION_MOVE == 0
                ==> snap_ok(old(self).ppq, snap_ratio, signed_tick(mouse.mouse_midi_track_pos.0)),
        ensures
            final(self).view_state() == if track_event_reaches_tools(old(self).flags) && tool is Selector {
                select_moved(old(self).view_state(), *mouse, snap_ratio)
            } else {
                old(self).view_state()
            },
    {
        if self.flags & TRACK_EDIT_MOUSE_DOWN_ON_UI != 0 {
            return;
        }
        if self.flags & (TRACK_EDIT_ANY_DIALOG_OPEN | TRACK_EDIT_MOUSE_OVER_UI) != 0 {
            return;
        }
        match tool {
            EditorTool::Selector => self.select_mouse_move(mouse, snap_ratio),
            _ => {},
        }
    }

    /// A release in the track view: one that began on the interface only
    /// clears that mark; one that reaches the tools goes to the selector.
    pub fn on_mouse_up(&mut self, tool: EditorTool, tracks: &mut Vec<MIDITrack>, selected: &mut SharedSelectedNotes)
        requires
            track_event_reaches_tools(old(self).flags) && tool is Selector
                ==> select_up_ok(old(self).view_state(), old(tracks)@, old(selected)@),
        ensures
            old(self).flags & TRACK_EDIT_MOUSE_DOWN_ON_UI != 0 ==> {
                &&& final(self).view_state() == (TrackEditView {
                    flags: old(self).flags & !TRACK_EDIT_MOUSE_DOWN_ON_UI,
                    ..old(self).view_state()
                })
                &&& final(tracks)@ == old(tracks)@
                &&& final(selected)@ == old(selected)@
            },
            track_event_reaches_tools(old(self).flags) && tool is Selector ==> select_up_effect(
                old(self).view_state(),
                old(tracks)@,
                old(selected)@,
                final(self).view_state(),
                final(tracks)@,
                final(selected)@,
            ),
            old(self).flags & TRACK_EDIT_MOUSE_DOWN_ON_UI == 0 && !(track_event_reaches_tools(old(self).flags) && tool is Selector) ==> {
                &&& final(self).view_state() == old(self).view_state()
                &&& final(tracks)@ == old(tracks)@
                &&& final(selected)@ == old(selected)@
            },
    {
        if self.flags & TRACK_EDIT_MOUSE_DOWN_ON_UI != 0 {
            self.flags = self.flags & !TRACK_EDIT_MOUSE_DOWN_ON_UI;
            return;
        }
        if self.flags & (TRACK_EDIT_ANY_DIALOG_OPEN | TRACK_EDIT_MOUSE_OVER_UI) != 0 {
            return;
        }
        match tool {
            EditorTool::Selector => self.select_mouse_up(tracks, selected),
            _ => {},
        }
    }
}

} // verus!
