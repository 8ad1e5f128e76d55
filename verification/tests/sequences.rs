use andromeda::midi_types::{Note, MetaEvent, MetaEventType};
use andromeda::note_sequence_funcs::{
    extract, extract_with, extract_and_remap_ids, sort_by_time, remove_note, merge_notes,
    merge_notes_and_return_ids, move_each_note_by, move_all_notes_by, get_first_from_ids,
};
use andromeda::meta_sequence_funcs::merge_metas;

fn n(start: u32, length: u32, key: u8) -> Note {
    Note { start, length, channel: 0, key, velocity: 100 }
}

#[test]
fn merge_prefers_first_on_equal_starts() {
    let a = vec![n(0, 10, 1), n(20, 10, 2)];
    let b = vec![n(0, 5, 3), n(10, 5, 4)];
    let merged = merge_notes(a, b);
    let keys: Vec<u8> = merged.iter().map(|x| x.key).collect();
    assert_eq!(keys, vec![1, 3, 4, 2]);
}

#[test]
fn merge_returns_positions_of_second() {
    let a = vec![n(0, 10, 1), n(20, 10, 2)];
    let b = vec![n(5, 5, 3), n(30, 5, 4)];
    let (merged, ids) = merge_notes_and_return_ids(a, b);
    assert_eq!(ids, vec![1, 3]);
    assert_eq!(merged[1].key, 3);
    assert_eq!(merged[3].key, 4);
    assert_eq!(merged.len(), 4);
}

#[test]
fn merge_with_empty_sides() {
    let (merged, ids) = merge_notes_and_return_ids(vec![], vec![n(1, 1, 1), n(2, 1, 2)]);
    assert_eq!(ids, vec![0, 1]);
    assert_eq!(merged.len(), 2);
    let (merged, ids) = merge_notes_and_return_ids(vec![n(1, 1, 1)], vec![]);
    assert!(ids.is_empty());
    assert_eq!(merged, vec![n(1, 1, 1)]);
}

#[test]
fn extract_splits_by_ids() {
    let src = vec![10, 11, 12, 13, 14];
    let (taken, kept) = extract(src, &[1, 3]);
    assert_eq!(taken, vec![11, 13]);
    assert_eq!(kept, vec![10, 12, 14]);
}

#[test]
fn extract_ignores_out_of_order_ids() {
    let src = vec![10, 11, 12];
    let (taken, kept) = extract(src, &[2, 0]);
    assert_eq!(taken, vec![12]);
    assert_eq!(kept, vec![10, 11]);
}

#[test]
fn extract_with_pairs_items() {
    let src = vec![10, 11, 12];
    let (taken, kept) = extract_with(src, &[0, 2], vec!['a', 'b']);
    assert_eq!(taken, vec![(10, 'a'), (12, 'b')]);
    assert_eq!(kept, vec![11]);
}

#[test]
fn extract_and_remap_keeps_selection_pointing_at_same_items() {
    let src = vec![10, 11, 12, 13, 14];
    let (taken, kept, remapped) = extract_and_remap_ids(src, &[1, 3], vec![0, 2, 3, 4]);
    assert_eq!(taken, vec![11, 13]);
    assert_eq!(kept, vec![10, 12, 14]);
    assert_eq!(remapped, vec![0, 1, 2]);
}

#[test]
fn sort_by_time_is_stable() {
    let v = vec![n(5, 1, 1), n(0, 1, 2), n(5, 1, 3), n(1, 1, 4)];
    let sorted = sort_by_time(v);
    let keys: Vec<u8> = sorted.iter().map(|x| x.key).collect();
    assert_eq!(keys, vec![2, 4, 1, 3]);
}

#[test]
fn remove_note_returns_it() {
    let mut v = vec![n(0, 1, 1), n(1, 1, 2), n(2, 1, 3)];
    let removed = remove_note(&mut v, 1);
    assert_eq!(removed.key, 2);
    assert_eq!(v.len(), 2);
    assert_eq!(v[1].key, 3);
}

#[test]
fn move_each_note_clamps_and_reports_applied_delta() {
    let notes = vec![n(10, 5, 60), n(20, 5, 126)];
    let moved = move_each_note_by(notes, &[(-15, 0), (5, 5)]);
    assert_eq!(moved.len(), 2);
    assert_eq!(moved[0].0.start, 0);
    assert_eq!(moved[0].1, (-10, 0));
    assert_eq!(moved[1].0.start, 25);
    assert_eq!(moved[1].0.key, 127);
    assert_eq!(moved[1].1, (5, 1));
}

#[test]
fn move_all_notes_sorts_result() {
    let notes = vec![n(10, 5, 60), n(20, 5, 61)];
    let moved = move_all_notes_by(notes, (-15, -61));
    assert_eq!(moved[0].start, 0);
    assert_eq!(moved[0].key, 0);
    assert_eq!(moved[1].start, 5);
    assert_eq!(moved[1].key, 0);
}

#[test]
fn first_from_ids() {
    let v = vec![7, 8, 9];
    assert_eq!(*get_first_from_ids(&v, &[2, 0]), 9);
}

#[test]
fn merge_metas_by_tick() {
    let m = |tick: u32, t: MetaEventType| MetaEvent { tick, event_type: t, data: vec![] };
    let merged = merge_metas(
        vec![m(0, MetaEventType::Tempo), m(100, MetaEventType::Tempo)],
        vec![m(0, MetaEventType::TimeSignature), m(50, MetaEventType::KeySignature)],
    );
    let types: Vec<MetaEventType> = merged.iter().map(|x| x.event_type).collect();
    assert_eq!(
        types,
        vec![MetaEventType::Tempo, MetaEventType::TimeSignature, MetaEventType::KeySignature, MetaEventType::Tempo]
    );
}
