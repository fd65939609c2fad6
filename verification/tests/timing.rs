//! Timing arithmetic, startup validation, and the clock position counter.
use guitar_pedal::init;
use guitar_pedal::samples_per_beat;
use guitar_pedal::samples_per_measure;
use guitar_pedal::ConfigError;
use guitar_pedal::interface::EffectMessage;
use guitar_pedal::interface::LoopMessage;
use std::sync::mpsc::sync_channel;

#[test]
fn beats_and_measures_at_shipped_tempo() {
    // BPM 80 at 48 kHz: 36000 samples per beat, 144000 per measure.
    assert_eq!(samples_per_beat(80), 36000);
    assert_eq!(samples_per_measure(80), 144000);
}

#[test]
fn measure_is_four_beats_for_all_tempos() {
    for bpm in [1usize, 2, 60, 75, 80, 120, 121, 999, 11227] {
        assert_eq!(samples_per_measure(bpm), samples_per_beat(bpm) * 4);
        assert_eq!(samples_per_beat(bpm), 48000 * 60 / bpm);
    }
}

#[test]
fn metronome_loop_is_exactly_one_measure() {
    let (_loop_tx, loop_rx) = sync_channel::<LoopMessage>(5);
    let (_fx_tx, fx_rx) = sync_channel::<EffectMessage>(5);
    let big = vec![500_000i64; 700];
    let little = vec![200_000i64; 300];
    let (_pm, lm) = init(75, &big, &little, loop_rx, fx_rx).unwrap();
    assert_eq!(lm.loop_samples(0).len(), samples_per_measure(75));
    assert_eq!(lm.loop_length(0), 1);
    // The loud click fills the head of beat one, padded with silence; the
    // soft click starts each later beat.
    let spb = samples_per_beat(75);
    let met = lm.loop_samples(0);
    assert_eq!(met[0], 500_000);
    assert_eq!(met[699], 500_000);
    assert_eq!(met[700], 0);
    assert_eq!(met[spb], 200_000);
    assert_eq!(met[spb + 299], 200_000);
    assert_eq!(met[spb + 300], 0);
    assert_eq!(met[3 * spb], 200_000);
}

#[test]
fn zero_tempo_is_rejected() {
    let (_loop_tx, loop_rx) = sync_channel::<LoopMessage>(5);
    let (_fx_tx, fx_rx) = sync_channel::<EffectMessage>(5);
    let big: Vec<i64> = Vec::new();
    let little: Vec<i64> = Vec::new();
    let r = init(0, &big, &little, loop_rx, fx_rx);
    assert_eq!(r.err().unwrap(), ConfigError::BadTempo);
}

#[test]
fn absurdly_fast_tempo_is_rejected() {
    // At this tempo a measure is shorter than the clock's one-block
    // lookahead allows.
    let (_loop_tx, loop_rx) = sync_channel::<LoopMessage>(5);
    let (_fx_tx, fx_rx) = sync_channel::<EffectMessage>(5);
    let big: Vec<i64> = Vec::new();
    let little: Vec<i64> = Vec::new();
    let r = init(2_880_000, &big, &little, loop_rx, fx_rx);
    assert_eq!(r.err().unwrap(), ConfigError::MeasureTooShort);
}

#[test]
fn click_longer_than_a_beat_is_rejected() {
    let (_loop_tx, loop_rx) = sync_channel::<LoopMessage>(5);
    let (_fx_tx, fx_rx) = sync_channel::<EffectMessage>(5);
    let spb = samples_per_beat(75);
    let big = vec![1i64; spb + 1];
    let little: Vec<i64> = Vec::new();
    let r = init(75, &big, &little, loop_rx, fx_rx);
    assert_eq!(r.err().unwrap(), ConfigError::ClickTooLong);
}

#[test]
fn effect_toggles_flip_flags() {
    let (_loop_tx, loop_rx) = sync_channel::<LoopMessage>(5);
    let (fx_tx, fx_rx) = sync_channel::<EffectMessage>(5);
    let big: Vec<i64> = Vec::new();
    let little: Vec<i64> = Vec::new();
    let (mut pm, _lm) = init(75, &big, &little, loop_rx, fx_rx).unwrap();
    assert!(!pm.compression_enabled());
    assert!(!pm.distortion_enabled());
    fx_tx.send(EffectMessage::ToggleCompression).unwrap();
    assert_eq!(pm.check_messages(), Some(EffectMessage::ToggleCompression));
    assert!(pm.compression_enabled());
    assert!(!pm.distortion_enabled());
    fx_tx.send(EffectMessage::ToggleDistortion).unwrap();
    assert_eq!(pm.check_messages(), Some(EffectMessage::ToggleDistortion));
    assert!(pm.distortion_enabled());
    fx_tx.send(EffectMessage::ToggleCompression).unwrap();
    assert_eq!(pm.check_messages(), Some(EffectMessage::ToggleCompression));
    assert!(!pm.compression_enabled());
    assert_eq!(pm.check_messages(), None);
}
