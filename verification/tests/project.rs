use andromeda::midi_types::MetaEventType;
use andromeda::playhead::snap_playhead_time;
use andromeda::plugin_source::{preprocess_plugin_src, PLUGIN_TABLE_PRELUDE};
use andromeda::project_file::{
    bytes_as_us_per_qn, default_global_metas, text_to_bytes, u16_to_bytes, u32_to_bytes,
    us_per_qn_as_bytes, write_header, ProjectInfo,
};

#[test]
fn integers_are_written_big_endian() {
    assert_eq!(u16_to_bytes(0x03C0), [0x03, 0xC0]);
    assert_eq!(u16_to_bytes(0xFFFF), [0xFF, 0xFF]);
    assert_eq!(u32_to_bytes(0x12345678), [0x12, 0x34, 0x56, 0x78]);
    assert_eq!(u32_to_bytes(16), [0, 0, 0, 16]);
}

#[test]
fn text_is_written_as_utf16() {
    assert_eq!(text_to_bytes(""), (0, vec![]));
    assert_eq!(text_to_bytes("Ab"), (4, vec![0x41, 0x00, 0x62, 0x00]));
    assert_eq!(text_to_bytes("\u{e9}"), (2, vec![0xE9, 0x00]));
    assert_eq!(text_to_bytes("\u{1F600}"), (4, vec![0x3D, 0xD8, 0x00, 0xDE]));
}

#[test]
fn header_holds_magic_length_and_fields() {
    let info = ProjectInfo { name: String::from("A"), author: String::new(), description: String::new() };
    let bytes = write_header(960, &info);
    let expected: Vec<u8> = vec![
        0x41, 0x6e, 0x48, 0x64, 0, 0, 0, 16, 0x03, 0xC0, 0, 0, 0, 2, 0x41, 0x00, 0, 0, 0, 0, 0, 0, 0, 0,
    ];
    assert_eq!(bytes, expected);
    let empty = write_header(480, &ProjectInfo::default());
    assert_eq!(empty, vec![0x41, 0x6e, 0x48, 0x64, 0, 0, 0, 14, 0x01, 0xE0, 0, 0, 0, 0, 0, 0, 0, 0, 0, 0, 0, 0]);
}

#[test]
fn tempo_bytes_round_trip() {
    assert_eq!(us_per_qn_as_bytes(500000), [0x07, 0xA1, 0x20]);
    assert_eq!(bytes_as_us_per_qn(&[0x07, 0xA1, 0x20]), 500000);
    for t in [0u32, 1, 255, 256, 65535, 65536, 0xFFFFFF] {
        assert_eq!(bytes_as_us_per_qn(&us_per_qn_as_bytes(t)), t);
    }
    assert_eq!(us_per_qn_as_bytes(0x1ABCDEF), [0xAB, 0xCD, 0xEF]);
}

#[test]
fn new_project_metas() {
    let metas = default_global_metas();
    assert_eq!(metas.len(), 3);
    assert_eq!(metas[0].event_type, MetaEventType::Tempo);
    assert_eq!(bytes_as_us_per_qn(&metas[0].data), 500000);
    assert_eq!(metas[1].event_type, MetaEventType::KeySignature);
    assert_eq!(metas[1].data, vec![0, 0]);
    assert_eq!(metas[2].event_type, MetaEventType::TimeSignature);
    assert_eq!(metas[2].data, vec![4, 2, 0x18, 8]);
    assert!(metas.iter().all(|m| m.tick == 0));
}

#[test]
fn plugin_table_line_gets_the_lookup_helper() {
    let src = "-- my plugin\nlocal P = {}\nreturn P";
    let out = preprocess_plugin_src(src).unwrap();
    assert_eq!(out, format!("-- my plugin\n{}\nreturn P", PLUGIN_TABLE_PRELUDE));
    let spaced = "  local  P={ } ;\nx = 1";
    let out = preprocess_plugin_src(spaced).unwrap();
    assert_eq!(out, format!("{}\nx = 1", PLUGIN_TABLE_PRELUDE));
    let untouched = "local Q = {}\n";
    assert_eq!(preprocess_plugin_src(untouched).unwrap(), untouched);
}

#[test]
fn playhead_snaps_to_nearest_step() {
    assert_eq!(snap_playhead_time(59, 4), 60);
    assert_eq!(snap_playhead_time(58, 4), 60);
    assert_eq!(snap_playhead_time(57, 4), 56);
    assert_eq!(snap_playhead_time(0, 240), 0);
    assert_eq!(snap_playhead_time(1000, 240), 960);
    assert_eq!(snap_playhead_time(1100, 240), 1200);
}
