use i2m_rs::midi::writer::{build_midi_file, SmfEventKind};
use i2m_rs::{color_event_payload, Color, ConversionResult, ConverterConfig, Error, MidiEvent, TimedMidiEvent};

fn simple_result() -> ConversionResult {
    ConversionResult {
        note_count: 1,
        note_count_per_color: vec![1],
        track_events: vec![vec![
            TimedMidiEvent::new(0, MidiEvent::note_on(0, 60, 1)),
            TimedMidiEvent::new(4, MidiEvent::note_off(0, 60, 0)),
        ]],
        height: 4,
        palette: vec![Color::new(255, 0, 0, 255)],
    }
}

#[test]
fn color_event_payload_has_expected_prefix() {
    let payload = color_event_payload(0, Color::new(255, 0, 0, 255));
    assert_eq!(&payload[0..4], &[0x00, 0x0F, 0x00, 0x00]);
    assert_eq!(&payload[4..], &[255, 0, 0, 255]);
}

#[test]
fn color_payload_wraps_track_number() {
    let payload = color_event_payload(17, Color::new(1, 2, 3, 4));
    assert_eq!(payload, vec![0x00, 0x0F, 1, 0x00, 1, 2, 3, 4]);
}

#[test]
fn file_has_tempo_color_and_notes() {
    let result = simple_result();
    let mut config = ConverterConfig::default();
    config.emit_color_events = true;
    config.ticks_per_pixel = 10;
    config.start_offset = 5;
    let file = build_midi_file(&[&result], &config).unwrap();
    assert_eq!(file.ppq, 96);
    assert_eq!(file.tracks.len(), 1);
    let track = &file.tracks[0];
    assert_eq!(track.len(), 5);
    assert_eq!(track[0].delta, 0);
    assert!(matches!(track[0].kind, SmfEventKind::Tempo { tempo: 500_000 }));
    assert_eq!(track[1].delta, 5);
    match &track[1].kind {
        SmfEventKind::Unknown { meta_type, data } => {
            assert_eq!(*meta_type, 0x0A);
            assert_eq!(data, &vec![0x00, 0x0F, 0, 0x00, 255, 0, 0, 255]);
        },
        other => panic!("unexpected event {:?}", other),
    }
    assert_eq!(track[2].delta, 0);
    assert!(matches!(track[2].kind, SmfEventKind::NoteOn { channel: 0, key: 60, velocity: 1 }));
    assert_eq!(track[3].delta, 40);
    assert!(matches!(track[3].kind, SmfEventKind::NoteOff { channel: 0, key: 60, velocity: 0 }));
    assert!(matches!(track[4].kind, SmfEventKind::EndOfTrack));
}

#[test]
fn chained_results_follow_each_other() {
    let first = simple_result();
    let second = simple_result();
    let config = ConverterConfig::default();
    let file = build_midi_file(&[&first, &second], &config).unwrap();
    let deltas: Vec<u32> = file.tracks[0].iter().map(|e| e.delta).collect();
    // tempo, on@0, off@4, on@4, off@8, end
    assert_eq!(deltas, vec![0, 0, 4, 0, 4, 0]);
    let mut tick = 0u64;
    for event in &file.tracks[0] {
        tick += u64::from(event.delta);
    }
    assert_eq!(tick, 8);
}

#[test]
fn events_are_ordered_by_tick() {
    let mut result = simple_result();
    result.track_events[0] = vec![
        TimedMidiEvent::new(3, MidiEvent::note_off(0, 61, 0)),
        TimedMidiEvent::new(1, MidiEvent::note_on(0, 61, 1)),
        TimedMidiEvent::new(3, MidiEvent::note_on(0, 62, 1)),
    ];
    let file = build_midi_file(&[&result], &ConverterConfig::default()).unwrap();
    let track = &file.tracks[0];
    assert!(matches!(track[1].kind, SmfEventKind::NoteOn { key: 61, .. }));
    assert_eq!(track[1].delta, 1);
    assert!(matches!(track[2].kind, SmfEventKind::NoteOff { key: 61, .. }));
    assert_eq!(track[2].delta, 2);
    assert!(matches!(track[3].kind, SmfEventKind::NoteOn { key: 62, .. }));
    assert_eq!(track[3].delta, 0);
}

#[test]
fn file_errors() {
    let config = ConverterConfig::default();
    assert!(matches!(build_midi_file(&[], &config), Err(Error::Midi(_))));
    let mut empty = simple_result();
    empty.track_events.clear();
    assert!(matches!(build_midi_file(&[&empty], &config), Err(Error::Midi(_))));
    let mut stray = simple_result();
    stray.track_events[0].push(TimedMidiEvent::new(2, MidiEvent::color(0, Color::black())));
    assert!(matches!(build_midi_file(&[&stray], &config), Err(Error::Midi(_))));
}

#[test]
fn cancellation_token_and_events() {
    let token = i2m_rs::CancellationToken::new();
    token.cancel();
    assert!(token.is_cancelled());
    assert_eq!(MidiEvent::tempo(7), MidiEvent::Tempo { tempo: 7 });
    let timed = TimedMidiEvent::new(3, MidiEvent::note_on(1, 2, 3));
    assert_eq!(timed.tick, 3);
}

#[test]
fn default_config_values() {
    let config = ConverterConfig::default();
    assert_eq!(config.color_count, 16);
    assert_eq!((config.start_key, config.end_key), (21, 108));
    assert_eq!(config.ppq, 96);
    assert_eq!(config.bpm, 120);
}

#[test]
fn default_token_starts_uncancelled() {
    let token = i2m_rs::CancellationToken::default();
    assert!(!token.is_cancelled());
    token.cancel();
    token.cancel();
    assert!(token.is_cancelled());
}
