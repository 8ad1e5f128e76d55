use andromeda::midi_types::{Note, MetaEvent, MetaEventType};
use andromeda::note_queries::{
    bin_search_notes, bin_search_notes_exact, get_notes_in_range, find_note_at,
    get_min_max_keys_in_selection, get_min_max_ticks_in_selection, get_absolute_max_tick_from_ids,
    get_meta_next_tick,
};
use andromeda::note_moves::{move_notes_to, manipulate_note_ticks, manipulate_note_lengths, move_element, decode_note_group};

fn n(start: u32, length: u32, key: u8) -> Note {
    Note { start, length, channel: 0, key, velocity: 100 }
}

fn track() -> Vec<Note> {
    vec![n(0, 10, 60), n(10, 10, 62), n(20, 10, 64), n(30, 10, 65)]
}

#[test]
fn bin_search_upper_bound() {
    let t = track();
    assert_eq!(bin_search_notes(&t, 0), 0);
    assert_eq!(bin_search_notes(&t, 15), 2);
    assert_eq!(bin_search_notes(&t, 10), 2);
    assert_eq!(bin_search_notes(&t, 30), 4);
    assert_eq!(bin_search_notes(&t, 99), 4);
    assert_eq!(bin_search_notes(&vec![], 5), 0);
}

#[test]
fn bin_search_exact_nearest() {
    let t = track();
    assert_eq!(bin_search_notes_exact(&t, 0), 0);
    assert_eq!(bin_search_notes_exact(&t, 15), 2);
    assert_eq!(bin_search_notes_exact(&t, 10), 1);
    assert_eq!(bin_search_notes_exact(&t, 30), 3);
    assert_eq!(bin_search_notes_exact(&t, 99), 3);
    assert_eq!(bin_search_notes_exact(&vec![], 5), 0);
}

#[test]
fn notes_in_range_with_and_without_ends() {
    let t = track();
    assert_eq!(get_notes_in_range(&t, 5, 25, 0, 127, false), vec![1, 2]);
    assert_eq!(get_notes_in_range(&t, 5, 25, 0, 127, true), vec![0, 1, 2]);
    assert_eq!(get_notes_in_range(&t, 5, 25, 63, 127, true), vec![2]);
    assert!(get_notes_in_range(&t, 100, 200, 0, 127, true).is_empty());
    assert!(get_notes_in_range(&vec![], 0, 10, 0, 127, true).is_empty());
}

#[test]
fn find_note_under_cursor() {
    let t = track();
    assert_eq!(find_note_at(&t, 12, 62), Some(1));
    assert_eq!(find_note_at(&t, 20, 62), Some(1));
    assert_eq!(find_note_at(&t, 20, 64), Some(2));
    assert_eq!(find_note_at(&t, 12, 60), None);
    assert_eq!(find_note_at(&t, 100, 65), None);
}

#[test]
fn min_max_keys_and_ticks() {
    let t = track();
    assert_eq!(get_min_max_keys_in_selection(&t, &vec![1, 3]), Some((62, 65)));
    assert_eq!(get_min_max_keys_in_selection(&t, &vec![]), None);
    assert_eq!(get_min_max_ticks_in_selection(&t, &vec![1, 2]), Some((10, 30)));
    assert_eq!(get_absolute_max_tick_from_ids(&t, &vec![3, 0]), Some(40));
    assert_eq!(get_absolute_max_tick_from_ids(&t, &vec![]), None);
}

#[test]
fn next_meta_of_type() {
    let m = |tick: u32, t: MetaEventType| MetaEvent { tick, event_type: t, data: vec![] };
    let metas = vec![m(0, MetaEventType::Tempo), m(10, MetaEventType::TimeSignature), m(20, MetaEventType::Tempo)];
    assert_eq!(get_meta_next_tick(&metas, MetaEventType::Tempo, 5).map(|x| x.tick), Some(20));
    assert_eq!(get_meta_next_tick(&metas, MetaEventType::Tempo, 0).map(|x| x.tick), Some(0));
    assert!(get_meta_next_tick(&metas, MetaEventType::KeySignature, 0).is_none());
}

#[test]
fn move_notes_to_resorts_moved_notes() {
    let mut t = vec![n(0, 10, 60), n(50, 10, 62), n(20, 10, 64), n(30, 10, 65)];
    let (old_ids, new_ids, deltas) = move_notes_to(&mut t, vec![(1, (40, 0))]);
    assert_eq!(old_ids, vec![1]);
    assert_eq!(new_ids, vec![3]);
    assert_eq!(deltas, vec![(40, 0)]);
    let starts: Vec<u32> = t.iter().map(|x| x.start).collect();
    assert_eq!(starts, vec![0, 20, 30, 50]);
}

#[test]
fn manipulate_ticks_and_lengths() {
    let mut t = track();
    let (old_ids, new_ids, deltas) = manipulate_note_ticks(&mut t, &vec![0], |s| s + 25);
    assert_eq!(old_ids, vec![0]);
    assert_eq!(new_ids, vec![2]);
    assert_eq!(deltas, vec![(25, 0)]);
    assert_eq!(t[2].start, 25);
    assert_eq!(t[2].key, 60);

    let mut t = track();
    let changes = manipulate_note_lengths(&mut t, &vec![1, 3], |l| l * 2);
    assert_eq!(changes, vec![10, 10]);
    assert_eq!(t[1].length, 20);
    assert_eq!(t[3].length, 20);
}

#[test]
fn move_element_both_ways() {
    let mut v = vec![0, 1, 2, 3, 4];
    move_element(&mut v, 1, 3);
    assert_eq!(v, vec![0, 2, 3, 1, 4]);
    move_element(&mut v, 3, 0);
    assert_eq!(v, vec![1, 0, 2, 3, 4]);
    move_element(&mut v, 2, 2);
    assert_eq!(v, vec![1, 0, 2, 3, 4]);
}

#[test]
fn note_group_decoding() {
    assert_eq!(decode_note_group(0x0003_05), (3, 5));
    assert_eq!(decode_note_group(0x1234_5F), (0x1234, 0xF));
    assert_eq!(decode_note_group(0x0000_A7), (0, 7));
}

#[test]
fn manipulate_ticks_with_a_shift() {
    let m = |s: u32| Note { start: s, length: 5, channel: 0, key: 60, velocity: 100 };
    let mut notes = vec![m(0), m(10), m(20)];
    let r = manipulate_note_ticks(&mut notes, &vec![0], |t| t + 25);
    assert_eq!(notes, vec![m(10), m(20), m(25)]);
    assert_eq!(r, (vec![0], vec![2], vec![(25, 0)]));
}

#[test]
fn manipulate_lengths_keeps_order() {
    let m = |s: u32, l: u32| Note { start: s, length: l, channel: 0, key: 60, velocity: 100 };
    let mut notes = vec![m(0, 5), m(10, 5), m(20, 5)];
    let r = manipulate_note_lengths(&mut notes, &vec![2, 0], |l| l + 3);
    assert_eq!(notes, vec![m(0, 8), m(10, 5), m(20, 8)]);
    assert_eq!(r, vec![3, 3]);
}

#[test]
fn notes_in_range_past_the_last_end_finds_nothing() {
    let t = vec![n(0, 100, 60), n(10, 5, 62)];
    assert!(get_notes_in_range(&t, 50, 60, 0, 127, true).is_empty());
    assert_eq!(get_notes_in_range(&t, 14, 60, 0, 127, true), vec![0, 1]);
}

#[test]
fn lookups_leave_ends_they_never_read_alone() {
    let t = vec![n(0, 10, 60), n(1, u32::MAX, 61), n(10, 10, 60)];
    assert_eq!(find_note_at(&t, 12, 60), Some(2));
    assert_eq!(get_absolute_max_tick_from_ids(&t, &vec![0, 2]), Some(20));
    assert_eq!(get_min_max_ticks_in_selection(&t, &vec![2]), Some((10, 20)));
    assert_eq!(get_notes_in_range(&t, 0, 0, 0, 127, true), vec![]);
}
