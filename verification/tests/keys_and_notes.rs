use i2m_rs::convert::{build_key_list, plan_conversion, resolve_key, scan_notes};
use i2m_rs::utils::is_white_key;
use i2m_rs::{Color, ConverterConfig, Error, KeyMode, MidiEvent, NoteLengthMode, Palette, RgbaImage};
use std::sync::atomic::AtomicBool;
use i2m_rs::progress::{NoProgress, RowProgress};
use std::cell::RefCell;

fn config_for(start_key: u8, end_key: u8) -> ConverterConfig {
    let mut config = ConverterConfig::default();
    config.start_key = start_key;
    config.end_key = end_key;
    config.target_height = 2;
    config
}

#[test]
fn build_key_list_all_keys() {
    let keys = build_key_list(60, 62, KeyMode::AllKeys);
    assert_eq!(keys, vec![60, 61, 62]);
}

#[test]
fn build_key_list_white_filled() {
    let keys = build_key_list(60, 63, KeyMode::WhiteKeysFilled);
    assert_eq!(keys, vec![60, 62]);
}

#[test]
fn is_white_key_detects_white_keys() {
    assert!(is_white_key(60));
    assert!(!is_white_key(61));
}

#[test]
fn build_key_list_black_filled_and_empty_range() {
    assert_eq!(build_key_list(60, 71, KeyMode::BlackKeysFilled), vec![61, 63, 66, 68, 70]);
    assert_eq!(build_key_list(62, 60, KeyMode::AllKeys), Vec::<u8>::new());
}

#[test]
fn white_and_black_key_lists_split_the_range() {
    for start in [0u8, 21, 60, 100] {
        for end in [start, start.saturating_add(11), 127] {
            let white = build_key_list(start, end, KeyMode::WhiteKeysFilled);
            let black = build_key_list(start, end, KeyMode::BlackKeysFilled);
            let all = build_key_list(start, end, KeyMode::AllKeys);
            assert_eq!(white.len() + black.len(), all.len());
            assert!(white.iter().all(|k| is_white_key(*k)));
            assert!(black.iter().all(|k| !is_white_key(*k)));
        }
    }
}

#[test]
fn resolve_key_follows_the_mode() {
    let keys = vec![60u8, 61, 62];
    assert_eq!(resolve_key(1, &keys, KeyMode::AllKeys), Some(61));
    assert_eq!(resolve_key(3, &keys, KeyMode::AllKeys), None);
    assert_eq!(resolve_key(1, &keys, KeyMode::WhiteKeysClipped), None);
    assert_eq!(resolve_key(2, &keys, KeyMode::WhiteKeysClipped), Some(62));
    assert_eq!(resolve_key(1, &keys, KeyMode::BlackKeysClipped), Some(61));
    assert_eq!(resolve_key(5, &keys, KeyMode::WhiteKeysFixed), Some(65));
    assert_eq!(resolve_key(6, &keys, KeyMode::WhiteKeysFixed), None);
}

#[test]
fn single_column_produces_one_note() {
    let palette = Palette::new(vec![Color::new(255, 0, 0, 255)]);
    let config = config_for(60, 60);
    let cancel = AtomicBool::new(false);
    let ids = vec![0, 0];
    let keys = build_key_list(60, 60, KeyMode::AllKeys);
    let result = scan_notes(&ids, 1, 2, &palette, &keys, &config, &cancel, &NoProgress).unwrap();

    assert_eq!(result.note_count, 1);
    assert_eq!(result.track_events.len(), 1);
    assert_eq!(result.track_events[0].len(), 2);
}

#[test]
fn color_runs_become_balanced_notes() {
    // Two columns, four rows; ids listed top row first.
    let palette = Palette::new(vec![Color::new(255, 0, 0, 255), Color::new(0, 0, 255, 255)]);
    let config = config_for(60, 61);
    let cancel = AtomicBool::new(false);
    let ids = vec![
        0, 1, //
        1, 1, //
        0, -2, //
        0, 1, //
    ];
    let keys = build_key_list(60, 61, KeyMode::AllKeys);
    let result = scan_notes(&ids, 2, 4, &palette, &keys, &config, &cancel, &NoProgress).unwrap();
    assert_eq!(result.height, 4);
    assert_eq!(result.note_count_per_color, vec![2, 3]);
    assert_eq!(result.note_count, 5);
    for track in &result.track_events {
        let ons = track.iter().filter(|e| matches!(e.event, MidiEvent::NoteOn { .. })).count();
        let offs = track.iter().filter(|e| matches!(e.event, MidiEvent::NoteOff { .. })).count();
        assert_eq!(ons, offs);
    }
    // Column 0 bottom-up: 0, 0, 1, 0 -> red note at 0..2, blue at 2..3, red at 3..4.
    let red = &result.track_events[0];
    assert_eq!(red[0].tick, 0);
    assert_eq!(red[0].event, MidiEvent::NoteOn { channel: 0, key: 60, velocity: 1 });
    assert!(red.iter().any(|e| e.tick == 4 && e.event == MidiEvent::NoteOff { channel: 0, key: 60, velocity: 0 }));
}

#[test]
fn note_length_limit_splits_notes() {
    let palette = Palette::new(vec![Color::new(255, 0, 0, 255)]);
    let mut config = config_for(60, 60);
    config.max_note_length = 2;
    config.note_length_mode = NoteLengthMode::SplitToGrid;
    let cancel = AtomicBool::new(false);
    let ids = vec![0, 0, 0, 0];
    let keys = build_key_list(60, 60, KeyMode::AllKeys);
    let result = scan_notes(&ids, 1, 4, &palette, &keys, &config, &cancel, &NoProgress).unwrap();
    assert_eq!(result.note_count, 2);
    assert_eq!(result.track_events[0].len(), 4);
}

#[test]
fn scan_reports_zero_size_and_cancellation() {
    let palette = Palette::new(vec![Color::new(255, 0, 0, 255)]);
    let config = config_for(60, 60);
    let keys = build_key_list(60, 60, KeyMode::AllKeys);
    let cancel = AtomicBool::new(false);
    let empty: Vec<i32> = Vec::new();
    assert!(matches!(scan_notes(&empty, 0, 0, &palette, &keys, &config, &cancel, &NoProgress), Err(Error::Resize(_))));
    let cancelled = AtomicBool::new(true);
    let ids = vec![0, 0];
    assert!(matches!(scan_notes(&ids, 1, 2, &palette, &keys, &config, &cancelled, &NoProgress), Err(Error::Cancelled)));
}

#[test]
fn plan_conversion_checks_its_inputs() {
    let image = RgbaImage::new(4, 2, Color::new(255, 0, 0, 255));
    let palette = Palette::new(vec![Color::new(255, 0, 0, 255)]);
    let mut config = config_for(60, 71);
    config.target_height = 0;

    let plan = plan_conversion(&image, &palette, &config).unwrap();
    assert_eq!(plan.key_list.len(), 12);
    assert_eq!(plan.width, 12);
    assert_eq!(plan.height, 6);

    let empty = Palette::new(Vec::new());
    assert!(matches!(plan_conversion(&image, &empty, &config), Err(Error::Config(_))));

    let mut reversed = config.clone();
    reversed.start_key = 72;
    assert!(matches!(plan_conversion(&image, &palette, &reversed), Err(Error::Config(_))));

    let mut no_black = config.clone();
    no_black.start_key = 64;
    no_black.end_key = 65;
    no_black.key_mode = KeyMode::BlackKeysFilled;
    assert!(matches!(plan_conversion(&image, &palette, &no_black), Err(Error::Config(_))));
}

struct RowLog {
    rows: RefCell<Vec<(u32, u32)>>,
}

impl RowProgress for RowLog {
    fn row_scanned(&self, row: u32, height: u32) {
        self.rows.borrow_mut().push((row, height));
    }
}

#[test]
fn scan_reports_every_thirty_second_row() {
    let palette = Palette::new(vec![Color::new(255, 0, 0, 255)]);
    let config = config_for(60, 60);
    let cancel = AtomicBool::new(false);
    let ids = vec![0; 70];
    let keys = build_key_list(60, 60, KeyMode::AllKeys);
    let log = RowLog { rows: RefCell::new(Vec::new()) };
    let result = scan_notes(&ids, 1, 70, &palette, &keys, &config, &cancel, &log).unwrap();

    assert_eq!(result.note_count, 1);
    assert_eq!(*log.rows.borrow(), vec![(64, 70), (32, 70), (0, 70)]);
}

#[test]
fn every_run_of_a_color_is_one_note() {
    let palette = Palette::new(vec![Color::new(255, 0, 0, 255), Color::new(0, 0, 255, 255)]);
    let mut config = config_for(60, 60);
    config.max_note_length = 0;
    let cancel = AtomicBool::new(false);
    // One column, bottom row last: from the bottom the colors are 0, 1, 0, 0.
    let ids = vec![0, 0, 1, 0];
    let keys = build_key_list(60, 60, KeyMode::AllKeys);
    let result = scan_notes(&ids, 1, 4, &palette, &keys, &config, &cancel, &NoProgress).unwrap();
    assert_eq!(result.note_count_per_color, vec![2, 1]);
    assert_eq!(result.note_count, 3);
}
