use andromeda::actions::{EditorAction, EditorActions};
use andromeda::bar_cacher::BarCacher;
use andromeda::meta_editing::MetaEditing;
use andromeda::midi_types::{MetaEvent, MetaEventType};
use andromeda::project_file::default_global_metas;

fn ts(tick: u32, num: u8, den: u8) -> MetaEvent {
    MetaEvent { tick, event_type: MetaEventType::TimeSignature, data: vec![num, den, 0x18, 8] }
}

fn tempo(tick: u32) -> MetaEvent {
    MetaEvent { tick, event_type: MetaEventType::Tempo, data: vec![0x07, 0xA1, 0x20] }
}

#[test]
fn bar_intervals_in_four_four() {
    let metas = default_global_metas();
    let mut bars = BarCacher::new();
    assert_eq!(bars.get_bar_interval(0, &metas, 960), (0, 3840));
    assert_eq!(bars.get_bar_interval(1, &metas, 960), (3840, 3840));
    assert_eq!(bars.get_bar_interval(5, &metas, 960), (19200, 3840));
}

#[test]
fn bar_intervals_without_time_signature_default_to_four_four() {
    let metas = vec![tempo(0)];
    let mut bars = BarCacher::new();
    assert_eq!(bars.get_bar_interval(2, &metas, 480), (3840, 1920));
}

#[test]
fn bar_cut_short_by_next_time_signature() {
    let metas = vec![ts(0, 3, 2), ts(5000, 4, 2)];
    let mut bars = BarCacher::new();
    assert_eq!(bars.get_bar_interval(0, &metas, 960), (0, 2880));
    assert_eq!(bars.get_bar_interval(1, &metas, 960), (2880, 2120));
    assert_eq!(bars.get_bar_interval(2, &metas, 960), (5000, 3840));
    bars.clear_cache();
    assert_eq!(bars.get_bar_interval(1, &metas, 960), (2880, 2120));
}

#[test]
fn bar_in_six_eight() {
    let metas = vec![ts(0, 6, 3)];
    let mut bars = BarCacher::new();
    assert_eq!(bars.compute_bar_length_at(0, &metas, 0, 960), (2880, 0));
    assert_eq!(bars.get_bar_interval(1, &metas, 960), (2880, 2880));
}

#[test]
fn meta_search_finds_position_after_tick() {
    let editing = MetaEditing::new(vec![tempo(0), ts(100, 4, 2), tempo(100), tempo(300)]);
    assert_eq!(editing.bin_search_metas(0), 1);
    assert_eq!(editing.bin_search_metas(50), 1);
    assert_eq!(editing.bin_search_metas(100), 3);
    assert_eq!(editing.bin_search_metas(1000), 4);
    assert_eq!(MetaEditing::new(vec![]).bin_search_metas(10), 0);
}

#[test]
fn inserting_meta_events() {
    let mut editing = MetaEditing::new(vec![tempo(0), ts(0, 4, 2)]);
    let mut actions = EditorActions::new(8);
    let mut bars = BarCacher::new();
    editing.insert_meta_event(tempo(960), &mut actions, &mut bars);
    assert_eq!(editing.get_metas().iter().map(|m| m.tick).collect::<Vec<_>>(), vec![0, 0, 960]);
    assert!(actions.get_can_undo());

    let mut replacing = MetaEditing::new(vec![ts(0, 4, 2)]);
    let mut actions = EditorActions::new(8);
    let mut data_ts = ts(0, 3, 2);
    data_ts.data = vec![3, 2, 0x18, 8];
    replacing.insert_meta_event(data_ts, &mut actions, &mut bars);
    // the search lands after the event at tick 0, so the new one is added after it
    assert_eq!(replacing.get_metas().len(), 2);
    assert!(actions.get_can_undo());
}

#[test]
fn deleting_metas_then_undoing() {
    let before = vec![tempo(0), ts(0, 4, 2), tempo(960), ts(1920, 3, 2)];
    let mut editing = MetaEditing::new(before.clone());
    let mut bars = BarCacher::new();
    editing.apply_action(&EditorAction::DeleteMeta(vec![1, 3]), &mut bars);
    assert_eq!(editing.get_metas().iter().map(|m| m.tick).collect::<Vec<_>>(), vec![0, 960]);
    assert_eq!(editing.tmp_del_metas.len(), 2);
    editing.apply_action(&EditorAction::AddMeta(vec![1, 3]), &mut bars);
    assert_eq!(editing.get_metas().len(), 4);
    for (a, b) in editing.get_metas().iter().zip(before.iter()) {
        assert_eq!(a.tick, b.tick);
        assert_eq!(a.event_type, b.event_type);
        assert_eq!(a.data, b.data);
    }
    assert!(editing.tmp_del_metas.is_empty());
}

#[test]
fn other_actions_leave_metas_alone() {
    let mut editing = MetaEditing::new(vec![tempo(0)]);
    let mut bars = BarCacher::new();
    editing.apply_action(&EditorAction::SwapTracks(0, 1), &mut bars);
    assert_eq!(editing.get_metas().len(), 1);
}

#[test]
fn inserting_a_meta_then_undoing_and_redoing() {
    let mut editing = MetaEditing::new(vec![tempo(0), ts(0, 4, 2)]);
    let mut actions = EditorActions::new(8);
    let mut bars = BarCacher::new();
    editing.insert_meta_event(tempo(960), &mut actions, &mut bars);
    {
        let undo = actions.undo_action().unwrap();
        assert!(matches!(undo, EditorAction::DeleteMeta(ids) if ids == &vec![2]));
        editing.apply_action(undo, &mut bars);
    }
    assert_eq!(editing.get_metas().iter().map(|m| m.tick).collect::<Vec<_>>(), vec![0, 0]);
    assert_eq!(editing.tmp_del_metas.len(), 1);
    {
        let redo = actions.redo_action().unwrap();
        editing.apply_action(redo, &mut bars);
    }
    assert_eq!(editing.get_metas().iter().map(|m| m.tick).collect::<Vec<_>>(), vec![0, 0, 960]);
    assert!(editing.tmp_del_metas.is_empty());
}
