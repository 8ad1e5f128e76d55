use vstd::prelude::*;
use crate::midi_types::{Note, MetaEvent, MetaEventType, MIDITick, Timed};
use crate::timed_seq::is_sorted;

verus! {

/// The ends that [`get_notes_in_range`] adds up are ticks: the last note's,
/// unless the region lies before the first note, and that of every note it
/// scans (all notes before it start no later than `max_tick`) that starts
/// before `min_tick`.
pub open spec fn range_scan_fits(notes: Seq<Note>, min_tick: MIDITick, max_tick: MIDITick) -> bool {
    &&& notes.len() > 0 && !(min_tick < notes[0].start && max_tick < notes[0].start) ==> notes.last().end_spec() <= u32::MAX
    &&& forall|i: int|
        0 <= i < notes.len() && (forall|j: int| 0 <= j < i ==> notes[j].start <= max_tick) && notes[i].start < min_tick
            ==> #[trigger] notes[i].end_spec() <= u32::MAX
}

/// The ends that [`find_note_at`] adds up are ticks: the last note's once
/// the position is not before the first note, the first note's when the
/// position is past the last note's end, and that of every note on `key_pos`
/// that starts at or before `tick_pos`.
pub open spec fn find_note_fits(notes: Seq<Note>, tick_pos: MIDITick, key_pos: u8) -> bool {
    &&& notes.len() > 0 && tick_pos >= notes[0].start ==> notes.last().end_spec() <= u32::MAX
    &&& notes.len() > 0 && tick_pos >= notes[0].start && tick_pos > notes.last().end_spec() ==> notes[0].end_spec() <= u32::MAX
    &&& forall|i: int| 0 <= i < notes.len() && notes[i].key == key_pos && notes[i].start <= tick_pos
            ==> #[trigger] notes[i].end_spec() <= u32::MAX
}

/// The ends of the selected notes are ticks.
pub open spec fn selected_ends_fit(notes: Seq<Note>, ids: Seq<usize>) -> bool {
    forall|k: int| 0 <= k < ids.len() ==> #[trigger] notes[ids[k] as int].end_spec() <= u32::MAX
}

/// Binary search for the insertion point of `tick` among the starts: on
/// sorted notes, the number of notes that start at or before `tick` (0 when
/// `tick` is at or before the first start).
pub fn bin_search_notes(notes: &Vec<Note>, tick: MIDITick) -> (r: usize)
    ensures
        r <= notes@.len(),
        notes@.len() == 0 ==> r == 0,
        notes@.len() > 0 && tick <= notes@[0].start ==> r == 0,
        is_sorted(notes@) && notes@.len() > 0 && tick > notes@[0].start ==> {
            &&& forall|i: int| 0 <= i < r ==> #[trigger] notes@[i].start <= tick
            &&& forall|i: int| r <= i < notes@.len() ==> #[trigger] notes@[i].start > tick
        },
{
    if notes.len() == 0 {
        return 0;
    }
    let mut low: usize = 0;
    let mut high: usize = notes.len();

    if tick <= notes[low].start {
        return 0;
    }
    if tick >= notes[high - 1].start {
        proof {
            if is_sorted(notes@) {
                assert forall|i: int| 0 <= i < notes@.len() implies #[trigger] notes@[i].start
                    <= tick by {
                    assert(notes@[i].start <= notes@[notes@.len() - 1].start);
                }
            }
        }
        return high;
    }
    while low < high
        invariant
            low <= high <= notes@.len(),
            is_sorted(notes@) ==> forall|i: int| 0 <= i < low ==> #[trigger] notes@[i].start <= tick,
            is_sorted(notes@) ==> forall|i: int|
                high <= i < notes@.len() ==> #[trigger] notes@[i].start > tick,
        decreases high - low,
    {
        let mid = low + (high - low) / 2;
        if notes[mid].start <= tick {
            proof {
                if is_sorted(notes@) {
                    assert forall|i: int| 0 <= i < mid + 1 implies #[trigger] notes@[i].start
                        <= tick by {
                        assert(notes@[i].start <= notes@[mid as int].start);
                    }
                }
            }
            low = mid + 1;
        } else {
            proof {
                if is_sorted(notes@) {
                    assert forall|i: int| mid <= i < notes@.len() implies #[trigger] notes@[i].start
                        > tick by {
                        assert(notes@[i].start >= notes@[mid as int].start);
                    }
                }
            }
            high = mid;
        }
    }
    low
}

/// Binary search for the nearest note at or after `tick`: on sorted notes, the
/// first note that starts at or after `tick`, clamped to the first and last
/// index.
pub fn bin_search_notes_exact(notes: &Vec<Note>, tick: MIDITick) -> (r: usize)
    ensures
        notes@.len() == 0 ==> r == 0,
        notes@.len() > 0 ==> r < notes@.len(),
        notes@.len() > 0 && tick <= notes@[0].start ==> r == 0,
        notes@.len() > 0 && tick > notes@[0].start && tick >= notes@[notes@.len() - 1].start ==> r
            == notes@.len() - 1,
        is_sorted(notes@) && notes@.len() > 0 && tick > notes@[0].start && tick < notes@[notes@.len()
            - 1].start ==> {
            &&& forall|i: int| 0 <= i < r ==> #[trigger] notes@[i].start < tick
            &&& (r == notes@.len() - 1 || notes@[r as int].start >= tick)
        },
{
    if notes.len() == 0 {
        return 0;
    }
    let mut low: usize = 0;
    let mut high: usize = notes.len() - 1;

    if tick <= notes[low].start {
        return 0;
    }
    if tick >= notes[high].start {
        return high;
    }
    while low < high
        invariant
            low <= high < notes@.len(),
            tick <= notes@[high as int].start,
            is_sorted(notes@) ==> forall|i: int| 0 <= i < low ==> #[trigger] notes@[i].start < tick,
        decreases high - low,
    {
        let mid = low + (high - low) / 2;
        if notes[mid].start < tick {
            proof {
                if is_sorted(notes@) {
                    assert forall|i: int| 0 <= i < mid + 1 implies #[trigger] notes@[i].start
                        < tick by {
                        assert(notes@[i].start <= notes@[mid as int].start);
                    }
                }
            }
            low = mid + 1;
        } else {
            high = mid;
        }
    }
    low
}

/// Whether a note lies in a selection region.
pub open spec fn note_in_region(
    n: Note,
    min_tick: MIDITick,
    max_tick: MIDITick,
    min_key: u8,
    max_key: u8,
    include_ends: bool,
) -> bool {
    &&& (n.start >= min_tick || (n.end_spec() > min_tick && include_ends))
    &&& n.start < max_tick
    &&& n.key >= min_key
    &&& n.key <= max_key
}

/// The indices, from `i` on, of notes in the region; the scan stops after the
/// first note that starts past `max_tick`.
pub open spec fn region_ids_from(
    notes: Seq<Note>,
    min_tick: MIDITick,
    max_tick: MIDITick,
    min_key: u8,
    max_key: u8,
    include_ends: bool,
    i: int,
) -> Seq<usize>
    decreases notes.len() - i,
{
    if i < 0 || i >= notes.len() {
        Seq::empty()
    } else {
        let head = if note_in_region(notes[i], min_tick, max_tick, min_key, max_key, include_ends) {
            seq![i as usize]
        } else {
            Seq::empty()
        };
        if notes[i].start > max_tick {
            head
        } else {
            head + region_ids_from(notes, min_tick, max_tick, min_key, max_key, include_ends, i + 1)
        }
    }
}

pub open spec fn notes_in_range_spec(
    notes: Seq<Note>,
    min_tick: MIDITick,
    max_tick: MIDITick,
    min_key: u8,
    max_key: u8,
    include_ends: bool,
) -> Seq<usize> {
    if notes.len() == 0 {
        Seq::empty()
    } else if min_tick < notes[0].start && max_tick < notes[0].start {
        Seq::empty()
    } else if min_tick > notes.last().end_spec() && max_tick > notes.last().end_spec() {
        Seq::empty()
    } else {
        region_ids_from(notes, min_tick, max_tick, min_key, max_key, include_ends, 0)
    }
}

proof fn lemma_region_ids_from(
    notes: Seq<Note>,
    min_tick: MIDITick,
    max_tick: MIDITick,
    min_key: u8,
    max_key: u8,
    include_ends: bool,
    i: int,
)
    requires
        0 <= i <= notes.len(),
        notes.len() <= usize::MAX,
    ensures
        ({
            let r = region_ids_from(notes, min_tick, max_tick, min_key, max_key, include_ends, i);
            &&& forall|k: int| 0 <= k < r.len() ==> i <= #[trigger] r[k] < notes.len()
                && note_in_region(notes[r[k] as int], min_tick, max_tick, min_key, max_key, include_ends)
            &&& forall|k1: int, k2: int| 0 <= k1 < k2 < r.len() ==> #[trigger] r[k1] < #[trigger] r[k2]
            &&& is_sorted(notes) ==> forall|j: int| i <= j < notes.len() && note_in_region(
                #[trigger] notes[j],
                min_tick,
                max_tick,
                min_key,
                max_key,
                include_ends,
            ) ==> r.contains(j as usize)
        }),
    decreases notes.len() - i,
{
    if i < notes.len() {
        lemma_region_ids_from(notes, min_tick, max_tick, min_key, max_key, include_ends, i + 1);
        let rest = region_ids_from(notes, min_tick, max_tick, min_key, max_key, include_ends, i + 1);
        let r = region_ids_from(notes, min_tick, max_tick, min_key, max_key, include_ends, i);
        let inside = note_in_region(notes[i], min_tick, max_tick, min_key, max_key, include_ends);
        let head = if inside { seq![i as usize] } else { Seq::<usize>::empty() };
        if notes[i].start > max_tick {
            assert(r == head);
            if is_sorted(notes) {
                assert forall|j: int| i <= j < notes.len() && note_in_region(
                    #[trigger] notes[j],
                    min_tick,
                    max_tick,
                    min_key,
                    max_key,
                    include_ends,
                ) implies r.contains(j as usize) by {
                    assert(notes[i].time() <= notes[j].time());
                }
            }
        } else {
            assert(r == head + rest);
            assert forall|k: int| 0 <= k < r.len() implies i <= #[trigger] r[k] < notes.len()
                && note_in_region(notes[r[k] as int], min_tick, max_tick, min_key, max_key, include_ends) by {
                if inside && k == 0 {
                } else {
                    assert(r[k] == rest[k - head.len()]);
                }
            }
            assert forall|k1: int, k2: int| 0 <= k1 < k2 < r.len() implies #[trigger] r[k1] < #[trigger] r[k2] by {
                assert(r[k2] == rest[k2 - head.len()]);
                if inside && k1 == 0 {
                } else {
                    assert(r[k1] == rest[k1 - head.len()]);
                }
            }
            if is_sorted(notes) {
                assert forall|j: int| i <= j < notes.len() && note_in_region(
                    #[trigger] notes[j],
                    min_tick,
                    max_tick,
                    min_key,
                    max_key,
                    include_ends,
                ) implies r.contains(j as usize) by {
                    if j == i {
                        assert(r[0] == i as usize);
                    } else {
                        assert(rest.contains(j as usize));
                        let k = choose|k: int| 0 <= k < rest.len() && rest[k] == j as usize;
                        assert(r[k + head.len()] == rest[k]);
                    }
                }
            }
        }
    }
}

/// What a region lookup finds: indices in ascending order, each of a note
/// inside the region; on notes in order by start, every note inside the
/// region, unless the region lies wholly past the last note's end (a
/// longer earlier note that reaches into it is then not found).
pub proof fn lemma_notes_in_range(
    notes: Seq<Note>,
    min_tick: MIDITick,
    max_tick: MIDITick,
    min_key: u8,
    max_key: u8,
    include_ends: bool,
)
    requires
        notes.len() <= usize::MAX,
    ensures
        ({
            let r = notes_in_range_spec(notes, min_tick, max_tick, min_key, max_key, include_ends);
            &&& forall|k: int| 0 <= k < r.len() ==> #[trigger] r[k] < notes.len()
                && note_in_region(notes[r[k] as int], min_tick, max_tick, min_key, max_key, include_ends)
            &&& forall|k1: int, k2: int| 0 <= k1 < k2 < r.len() ==> #[trigger] r[k1] < #[trigger] r[k2]
            &&& is_sorted(notes) && !(notes.len() > 0 && min_tick > notes.last().end_spec() && max_tick
                > notes.last().end_spec()) ==> forall|j: int| 0 <= j < notes.len() && note_in_region(
                #[trigger] notes[j],
                min_tick,
                max_tick,
                min_key,
                max_key,
                include_ends,
            ) ==> r.contains(j as usize)
        }),
{
    lemma_region_ids_from(notes, min_tick, max_tick, min_key, max_key, include_ends, 0);
    if notes.len() > 0 && min_tick < notes[0].start && max_tick < notes[0].start && is_sorted(notes) {
        assert forall|j: int| 0 <= j < notes.len() implies !note_in_region(
            #[trigger] notes[j],
            min_tick,
            max_tick,
            min_key,
            max_key,
            include_ends,
        ) by {
            assert(notes[0].time() <= notes[j].time());
        }
    }
}

/// The indices of the notes inside a tick/key region (a note that starts
/// before `min_tick` counts when `include_ends` is set and it reaches past
/// `min_tick`).
pub fn get_notes_in_range(
    notes: &Vec<Note>,
    min_tick: MIDITick,
    max_tick: MIDITick,
    min_key: u8,
    max_key: u8,
    include_ends: bool,
) -> (r: Vec<usize>)
    requires
        range_scan_fits(notes@, min_tick, max_tick),
    ensures
        r@ == notes_in_range_spec(notes@, min_tick, max_tick, min_key, max_key, include_ends),
{
    let mut note_ids: Vec<usize> = Vec::new();
    if notes.len() == 0 {
        return note_ids;
    }
    {
        let low_note = notes[0];
        let high_note = notes[notes.len() - 1];
        if min_tick < low_note.start && max_tick < low_note.start {
            return note_ids;
        }
        proof {
            assert(high_note.end_spec() <= u32::MAX);
        }
        if min_tick > high_note.start + high_note.length && max_tick > high_note.start
            + high_note.length {
            return note_ids;
        }
    }
    let ghost full = region_ids_from(notes@, min_tick, max_tick, min_key, max_key, include_ends, 0);
    let mut i: usize = 0;
    let mut done = false;
    proof {
        assert(note_ids@ + full =~= full);
    }
    while i < notes.len() && !done
        invariant
            i <= notes@.len(),
            range_scan_fits(notes@, min_tick, max_tick),
            !done ==> forall|j: int| 0 <= j < i ==> #[trigger] notes@[j].start <= max_tick,
            full == region_ids_from(notes@, min_tick, max_tick, min_key, max_key, include_ends, 0),
            !done ==> full == note_ids@ + region_ids_from(
                notes@,
                min_tick,
                max_tick,
                min_key,
                max_key,
                include_ends,
                i as int,
            ),
            done ==> full == note_ids@,
        decreases notes@.len() - i + (if done { 0int } else { 1int }),
    {
        let note = notes[i];
        proof {
            if note.start < min_tick {
                assert(notes@[i as int].end_spec() <= u32::MAX);
            }
        }
        let hit = (note.start >= min_tick || (note.start + note.length > min_tick
            && include_ends)) && note.start < max_tick && note.key >= min_key && note.key
            <= max_key;
        if hit {
            note_ids.push(i);
        }
        if note.start > max_tick {
            done = true;
            proof {
                assert(full =~= note_ids@);
            }
        } else {
            proof {
                assert(full =~= note_ids@ + region_ids_from(
                    notes@,
                    min_tick,
                    max_tick,
                    min_key,
                    max_key,
                    include_ends,
                    i + 1,
                ));
            }
            i += 1;
        }
    }
    proof {
        if !done {
            assert(full =~= note_ids@);
        }
    }
    note_ids
}

/// Whether `n` sounds at `tick` on `key` (both ends included).
pub open spec fn note_at(n: Note, tick: MIDITick, key: u8) -> bool {
    n.key == key && n.start <= tick && n.end_spec() >= tick
}

/// The quick rejections that [`find_note_at`] makes before searching.
pub open spec fn find_note_rejects(notes: Seq<Note>, tick: MIDITick) -> bool {
    notes.len() == 0 || tick < notes[0].start || (tick > notes.last().end_spec() && tick
        > notes[0].end_spec())
}

/// What looking up the note under (tick, key) answers with `r`: nothing
/// after a quick rejection; otherwise a note that sounds there, and on
/// sorted notes the last such note (nothing when none does).
pub open spec fn found_note_at(notes: Seq<Note>, tick_pos: MIDITick, key_pos: u8, r: Option<usize>) -> bool {
    &&& find_note_rejects(notes, tick_pos) ==> r is None
    &&& r matches Some(i) ==> i < notes.len() && note_at(notes[i as int], tick_pos, key_pos)
    &&& is_sorted(notes) && !find_note_rejects(notes, tick_pos) ==> match r {
        Some(i) => forall|j: int| i < j < notes.len() ==> !note_at(#[trigger] notes[j], tick_pos, key_pos),
        None => forall|j: int| 0 <= j < notes.len() ==> !note_at(#[trigger] notes[j], tick_pos, key_pos),
    }
}

/// Finds the note under a (tick, key) position. On sorted notes, the last note
/// that sounds there.
pub fn find_note_at(notes: &Vec<Note>, tick_pos: MIDITick, key_pos: u8) -> (r: Option<usize>)
    requires
        find_note_fits(notes@, tick_pos, key_pos),
    ensures
        found_note_at(notes@, tick_pos, key_pos, r),
{
    if notes.len() == 0 {
        return None;
    }
    let n = notes.len();
    let mut low: usize = 0;
    let mut high: usize = n;
    {
        let lower = notes[0];
        let upper = notes[n - 1];
        if tick_pos < lower.start {
            return None;
        }
        if tick_pos > upper.start + upper.length && tick_pos > lower.start + lower.length {
            return None;
        }
    }
    while low < high
        invariant
            low <= high <= n,
            n == notes@.len(),
            is_sorted(notes@) ==> forall|i: int|
                high <= i < notes@.len() ==> #[trigger] notes@[i].start > tick_pos,
        decreases high - low,
    {
        let mid = low + (high - low) / 2;
        if notes[mid].start <= tick_pos {
            low = mid + 1;
        } else {
            proof {
                if is_sorted(notes@) {
                    assert forall|i: int| mid <= i < notes@.len() implies #[trigger] notes@[i].start
                        > tick_pos by {
                        assert(notes@[i].start >= notes@[mid as int].start);
                    }
                }
            }
            high = mid;
        }
    }
    let mut i: usize = low;
    while i > 0
        invariant
            i <= low <= n,
            n == notes@.len(),
            find_note_fits(notes@, tick_pos, key_pos),
            !find_note_rejects(notes@, tick_pos),
            is_sorted(notes@) ==> forall|j: int|
                low <= j < notes@.len() ==> #[trigger] notes@[j].start > tick_pos,
            forall|j: int| i <= j < low ==> !note_at(#[trigger] notes@[j], tick_pos, key_pos),
        decreases i,
    {
        i -= 1;
        let note = notes[i];
        proof {
            if note.key == key_pos && note.start <= tick_pos {
                assert(notes@[i as int].end_spec() <= u32::MAX);
            }
        }
        if note.key == key_pos && note.start <= tick_pos && note.start + note.length >= tick_pos {
            return Some(i);
        }
    }
    let mut i: usize = low;
    while i < n
        invariant
            low <= i <= n,
            n == notes@.len(),
            find_note_fits(notes@, tick_pos, key_pos),
            !find_note_rejects(notes@, tick_pos),
            is_sorted(notes@) ==> forall|j: int|
                low <= j < notes@.len() ==> #[trigger] notes@[j].start > tick_pos,
            forall|j: int| 0 <= j < low ==> !note_at(#[trigger] notes@[j], tick_pos, key_pos),
            forall|j: int| low <= j < i ==> !note_at(#[trigger] notes@[j], tick_pos, key_pos),
        decreases n - i,
    {
        let note = notes[i];
        proof {
            if note.key == key_pos && note.start <= tick_pos {
                assert(notes@[i as int].end_spec() <= u32::MAX);
            }
        }
        if note.key == key_pos && note.start <= tick_pos && note.start + note.length >= tick_pos {
            return Some(i);
        }
        i += 1;
    }
    None
}

/// All the indices point into the sequence.
pub open spec fn ids_in_range(ids: Seq<usize>, n: int) -> bool {
    forall|k: int| 0 <= k < ids.len() ==> #[trigger] ids[k] < n
}

/// The lowest and highest key among the notes at `ids` (the lowest is at most
/// 127 and the highest at least 0, as the scan starts from there).
pub fn get_min_max_keys_in_selection(notes: &Vec<Note>, ids: &Vec<usize>) -> (r: Option<(u8, u8)>)
    requires
        ids_in_range(ids@, notes@.len() as int),
    ensures
        r is None <==> ids@.len() == 0,
        r matches Some((mn, mx)) ==> {
            &&& mn <= 127
            &&& forall|k: int| 0 <= k < ids@.len() ==> mn <= #[trigger] notes@[ids@[k] as int].key
            &&& (mn == 127 || exists|k: int|
                0 <= k < ids@.len() && #[trigger] notes@[ids@[k] as int].key == mn)
            &&& forall|k: int| 0 <= k < ids@.len() ==> mx >= #[trigger] notes@[ids@[k] as int].key
            &&& (mx == 0 || exists|k: int|
                0 <= k < ids@.len() && #[trigger] notes@[ids@[k] as int].key == mx)
        },
{
    if ids.len() == 0 {
        return None;
    }
    let mut min_key: u8 = 127;
    let mut max_key: u8 = 0;
    let mut k: usize = 0;
    while k < ids.len()
        invariant
            k <= ids@.len(),
            ids_in_range(ids@, notes@.len() as int),
            min_key <= 127,
            forall|j: int| 0 <= j < k ==> min_key <= #[trigger] notes@[ids@[j] as int].key,
            (min_key == 127 || exists|j: int|
                0 <= j < k && #[trigger] notes@[ids@[j] as int].key == min_key),
            forall|j: int| 0 <= j < k ==> max_key >= #[trigger] notes@[ids@[j] as int].key,
            (max_key == 0 || exists|j: int|
                0 <= j < k && #[trigger] notes@[ids@[j] as int].key == max_key),
        decreases ids@.len() - k,
    {
        let id = ids[k];
        let note = notes[id];
        if min_key >= note.key {
            min_key = note.key;
        }
        if max_key <= note.key {
            max_key = note.key;
        }
        k += 1;
    }
    Some((min_key, max_key))
}

/// The latest end among the notes at `ids` (at least 0).
pub fn get_absolute_max_tick_from_ids(notes: &Vec<Note>, ids: &Vec<usize>) -> (r: Option<MIDITick>)
    requires
        ids_in_range(ids@, notes@.len() as int),
        selected_ends_fit(notes@, ids@),
    ensures
        r is None <==> ids@.len() == 0,
        r matches Some(m) ==> {
            &&& forall|k: int|
                0 <= k < ids@.len() ==> #[trigger] notes@[ids@[k] as int].end_spec() <= m
            &&& (m == 0 || exists|k: int|
                0 <= k < ids@.len() && #[trigger] notes@[ids@[k] as int].end_spec() == m)
        },
{
    if ids.len() == 0 {
        return None;
    }
    let mut max_tick: MIDITick = 0;
    let mut k: usize = 0;
    while k < ids.len()
        invariant
            k <= ids@.len(),
            ids_in_range(ids@, notes@.len() as int),
            selected_ends_fit(notes@, ids@),
            forall|j: int| 0 <= j < k ==> #[trigger] notes@[ids@[j] as int].end_spec() <= max_tick,
            (max_tick == 0 || exists|j: int|
                0 <= j < k && #[trigger] notes@[ids@[j] as int].end_spec() == max_tick),
        decreases ids@.len() - k,
    {
        let id = ids[k];
        let note = notes[id];
        proof {
            assert(notes@[ids@[k as int] as int].end_spec() <= u32::MAX);
        }
        if note.start() + note.length() >= max_tick {
            max_tick = note.start() + note.length();
        }
        k += 1;
    }
    Some(max_tick)
}

/// The start of the first selected note and the latest end among the
/// selected notes.
pub fn get_min_max_ticks_in_selection(notes: &Vec<Note>, ids: &Vec<usize>) -> (r: Option<
    (MIDITick, MIDITick),
>)
    requires
        ids_in_range(ids@, notes@.len() as int),
        selected_ends_fit(notes@, ids@),
    ensures
        r is None <==> ids@.len() == 0,
        r matches Some((mn, mx)) ==> {
            &&& mn == notes@[ids@[0] as int].start
            &&& forall|k: int|
                0 <= k < ids@.len() ==> #[trigger] notes@[ids@[k] as int].end_spec() <= mx
            &&& (mx == 0 || exists|k: int|
                0 <= k < ids@.len() && #[trigger] notes@[ids@[k] as int].end_spec() == mx)
        },
{
    if ids.len() == 0 {
        return None;
    }
    let min_tick = notes[ids[0]].start;
    let max_tick = match get_absolute_max_tick_from_ids(notes, ids) {
        Some(m) => m,
        None => 0,
    };
    Some((min_tick, max_tick))
}

/// The first meta event of the given type that is at or after `tick`.
pub fn get_meta_next_tick<'a>(metas: &'a Vec<MetaEvent>, meta_type: MetaEventType, tick: MIDITick) -> (r:
    Option<&'a MetaEvent>)
    ensures
        match r {
            Some(m) => exists|i: int|
                0 <= i < metas@.len() && metas@[i].event_type == meta_type && metas@[i].tick
                    >= tick && *m == metas@[i] && forall|j: int|
                    0 <= j < i ==> !(#[trigger] metas@[j].event_type == meta_type && metas@[j].tick
                        >= tick),
            None => forall|j: int|
                0 <= j < metas@.len() ==> !(#[trigger] metas@[j].event_type == meta_type
                    && metas@[j].tick >= tick),
        },
{
    let mut i: usize = 0;
    while i < metas.len()
        invariant
            i <= metas@.len(),
            forall|j: int|
                0 <= j < i ==> !(#[trigger] metas@[j].event_type == meta_type && metas@[j].tick
                    >= tick),
        decreases metas@.len() - i,
    {
        let meta = &metas[i];
        if meta.event_type == meta_type && meta.tick >= tick {
            return Some(meta);
        }
        i += 1;
    }
    None
}

} // verus!
