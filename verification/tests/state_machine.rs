//! The loop register state machine, driven event by event: recording a
//! loop through its full life cycle, the rejected commands, and the fatal
//! protocol violations.
use guitar_pedal::init;
use guitar_pedal::NUM_LOOPS;
use guitar_pedal::interface::EffectMessage;
use guitar_pedal::interface::LoopMessage;
use guitar_pedal::clock::Sample;
use guitar_pedal::loop_manager::LoopError;
use guitar_pedal::loop_manager::LoopManager;
use guitar_pedal::loop_manager::LoopNotice;
use guitar_pedal::loop_manager::LoopStatus;
use std::sync::mpsc::sync_channel;

/// One full-scale sample in the tests' fixed-point convention.
const UNIT: i64 = 1 << 28;

/// A loop engine at BPM 80 (144000 samples per measure) with a silent
/// metronome, driven directly through its public event handler.
fn engine_at_80() -> LoopManager {
    let (_loop_tx, loop_rx) = sync_channel::<LoopMessage>(5);
    let (_fx_tx, _fx_rx) = sync_channel::<EffectMessage>(5);
    let big: Vec<i64> = Vec::new();
    let little: Vec<i64> = Vec::new();
    let (_pm, lm) = init(80, &big, &little, loop_rx, _fx_rx).unwrap();
    lm
}

fn feed_data(lm: &mut LoopManager, value: i64, count: usize) {
    let mut fed: usize = 0;
    while fed < count {
        lm.handle_sample(Sample::Data(value)).unwrap();
        fed += 1;
    }
}

#[test]
fn record_one_measure_life_cycle() {
    // Toggling an empty register arms it; the next measure boundary starts
    // the recording; stopping resolves at the next lookahead point; one
    // measure in, the loop holds exactly one measure of the fed signal and
    // plays from its start.
    let mut lm = engine_at_80();
    let spm: usize = 144000;
    assert_eq!(lm.loop_status(1), LoopStatus::Empty);
    assert_eq!(lm.apply_message(LoopMessage::ToggleLoop(1)), None);
    assert_eq!(lm.loop_status(1), LoopStatus::RecordStart);
    assert_eq!(lm.recording_at(), Some(1));

    lm.handle_sample(Sample::Tick).unwrap();
    assert_eq!(lm.loop_status(1), LoopStatus::Recording);

    // The lookahead point comes one block (512 samples) before the boundary.
    feed_data(&mut lm, UNIT, spm - 512);
    assert_eq!(lm.apply_message(LoopMessage::StopRecording), None);
    assert_eq!(lm.loop_status(1), LoopStatus::RecordEnd);

    lm.handle_sample(Sample::PreTick).unwrap();
    assert!(lm.is_draining());
    assert_eq!(lm.loop_status(1), LoopStatus::On(0));
    feed_data(&mut lm, UNIT, 512);
    lm.handle_sample(Sample::Tick).unwrap();
    assert!(!lm.is_draining());

    assert_eq!(lm.loop_status(1), LoopStatus::On(0));
    assert_eq!(lm.loop_length(1), 1);
    let samples = lm.loop_samples(1);
    assert_eq!(samples.len(), spm);
    for k in 0..samples.len() {
        assert_eq!(samples[k], UNIT);
    }
    assert_eq!(lm.recording_at(), None);
}

#[test]
fn toggle_while_recording_changes_nothing() {
    // A register that is recording ignores further toggles: its status and
    // its length growth are untouched.
    let mut lm = engine_at_80();
    let spm: usize = 144000;
    lm.apply_message(LoopMessage::ToggleLoop(3));
    lm.handle_sample(Sample::Tick).unwrap();
    feed_data(&mut lm, 7, spm);
    lm.handle_sample(Sample::Tick).unwrap();
    assert_eq!(lm.loop_length(3), 1);

    assert_eq!(
        lm.apply_message(LoopMessage::ToggleLoop(3)),
        Some(LoopNotice::BusyRecording),
    );
    assert_eq!(lm.loop_status(3), LoopStatus::Recording);
    assert_eq!(lm.loop_length(3), 1);

    feed_data(&mut lm, 7, spm);
    lm.handle_sample(Sample::Tick).unwrap();
    assert_eq!(lm.loop_length(3), 2);
    assert_eq!(lm.loop_status(3), LoopStatus::Recording);
}

#[test]
fn rejected_commands_report_notices() {
    let mut lm = engine_at_80();
    assert_eq!(
        lm.apply_message(LoopMessage::ToggleLoop(NUM_LOOPS)),
        Some(LoopNotice::InvalidIndex),
    );
    assert_eq!(
        lm.apply_message(LoopMessage::StopRecording),
        Some(LoopNotice::NotRecording),
    );
    lm.apply_message(LoopMessage::ToggleLoop(2));
    assert_eq!(
        lm.apply_message(LoopMessage::ToggleLoop(2)),
        Some(LoopNotice::PendingRecord),
    );
    assert_eq!(
        lm.apply_message(LoopMessage::ToggleLoop(4)),
        Some(LoopNotice::AlreadyRecording(2)),
    );
    assert_eq!(lm.loop_status(4), LoopStatus::Empty);
    // A stop before the recording has begun is a no-op too.
    assert_eq!(
        lm.apply_message(LoopMessage::StopRecording),
        Some(LoopNotice::NotRecording),
    );
    lm.handle_sample(Sample::Tick).unwrap();
    feed_data(&mut lm, 1, 144000 - 512);
    lm.apply_message(LoopMessage::StopRecording);
    assert_eq!(
        lm.apply_message(LoopMessage::ToggleLoop(2)),
        Some(LoopNotice::PendingFinish),
    );
}

#[test]
fn pretick_during_drain_is_fatal() {
    let mut lm = engine_at_80();
    lm.apply_message(LoopMessage::ToggleLoop(1));
    lm.handle_sample(Sample::Tick).unwrap();
    feed_data(&mut lm, UNIT, 144000 - 512);
    lm.apply_message(LoopMessage::StopRecording);
    lm.handle_sample(Sample::PreTick).unwrap();
    assert!(lm.is_draining());
    assert_eq!(
        lm.handle_sample(Sample::PreTick),
        Err(LoopError::StreamDesync),
    );
}

#[test]
fn tick_off_the_measure_boundary_is_fatal() {
    // If the closing boundary arrives while the drained recording is not a
    // whole number of measures, the clocks have lost step.
    let mut lm = engine_at_80();
    lm.apply_message(LoopMessage::ToggleLoop(1));
    lm.handle_sample(Sample::Tick).unwrap();
    feed_data(&mut lm, UNIT, 144000 - 512);
    lm.apply_message(LoopMessage::StopRecording);
    lm.handle_sample(Sample::PreTick).unwrap();
    assert_eq!(
        lm.handle_sample(Sample::Tick),
        Err(LoopError::MeasureMismatch),
    );
}

#[test]
fn stopping_too_early_is_fatal_at_the_lookahead() {
    // The mix-ahead step needs at least half the final measure recorded.
    let mut lm = engine_at_80();
    lm.apply_message(LoopMessage::ToggleLoop(1));
    lm.handle_sample(Sample::Tick).unwrap();
    feed_data(&mut lm, UNIT, 100);
    lm.apply_message(LoopMessage::StopRecording);
    assert_eq!(
        lm.handle_sample(Sample::PreTick),
        Err(LoopError::RecordingTooShort),
    );
}

#[test]
fn out_of_range_sample_while_recording_is_fatal() {
    let mut lm = engine_at_80();
    lm.apply_message(LoopMessage::ToggleLoop(1));
    lm.handle_sample(Sample::Tick).unwrap();
    assert_eq!(
        lm.handle_sample(Sample::Data(i64::MAX)),
        Err(LoopError::SampleOutOfRange),
    );
}

#[test]
fn out_of_range_sample_outside_recording_is_dropped() {
    // With nothing recording the sample is not stored, so nothing rejects it.
    let mut lm = engine_at_80();
    lm.handle_sample(Sample::Data(i64::MAX)).unwrap();
    assert_eq!(lm.loop_samples(1).len(), 0);
}

#[test]
fn overfilling_the_mix_channel_is_fatal() {
    // The mixed-audio channel holds two measures.  One was prefilled with
    // the metronome, one more measure of mix-ahead fills it; a further
    // lookahead with nobody consuming has no room.
    let mut lm = engine_at_80();
    lm.handle_sample(Sample::PreTick).unwrap();
    assert_eq!(
        lm.handle_sample(Sample::PreTick),
        Err(LoopError::PlaybackFull),
    );
}
