//! End-to-end runs of both engines over the real channels: the metronome
//! round trip, loop recording and replay across repeated cycles, mixing of
//! several loops, and the underrun fault.
//!
//! At 75 BPM a measure is 153600 samples: exactly 300 blocks of 512, so
//! measures align with block boundaries and measure `m` spans blocks
//! `300 m .. 300 m + 300`.
use guitar_pedal::init;
use guitar_pedal::interface::EffectMessage;
use guitar_pedal::interface::LoopMessage;
use guitar_pedal::loop_manager::LoopManager;
use guitar_pedal::loop_manager::LoopStatus;
use guitar_pedal::playback_manager::PlaybackError;
use guitar_pedal::playback_manager::PlaybackManager;
use std::sync::mpsc::sync_channel;
use std::sync::mpsc::SyncSender;

/// Runs the loop engine until it has consumed every queued clock event.
fn pump(lm: &mut LoopManager) {
    loop {
        let report = lm.run_iteration().unwrap();
        if report.event.is_none() {
            break;
        }
    }
}

/// Feeds `count` blocks of a constant sample through the playback engine,
/// letting the loop engine keep pace after each block.
fn feed_blocks(pm: &mut PlaybackManager, lm: &mut LoopManager, value: i64, count: usize) {
    for _ in 0..count {
        let input = vec![value; 512];
        let mut output = vec![0i64; 512];
        pm.process_block(&input, &mut output).unwrap();
        pump(lm);
    }
}

/// Like `feed_blocks`, also checking that every output sample equals
/// `expect`.
fn feed_blocks_expect(
    pm: &mut PlaybackManager,
    lm: &mut LoopManager,
    value: i64,
    count: usize,
    expect: i64,
) {
    for _ in 0..count {
        let input = vec![value; 512];
        let mut output = vec![0i64; 512];
        pm.process_block(&input, &mut output).unwrap();
        for k in 0..output.len() {
            assert_eq!(output[k], expect);
        }
        pump(lm);
    }
}

/// Sends one command and lets the loop engine pick it up.
fn command(lm: &mut LoopManager, tx: &SyncSender<LoopMessage>, message: LoopMessage) {
    tx.send(message).unwrap();
    let report = lm.run_iteration().unwrap();
    assert_eq!(report.message, Some(message));
}

/// Engines at 75 BPM with a silent metronome, plus the command sender.
fn session() -> (PlaybackManager, LoopManager, SyncSender<LoopMessage>) {
    let (loop_tx, loop_rx) = sync_channel::<LoopMessage>(5);
    let (_fx_tx, fx_rx) = sync_channel::<EffectMessage>(5);
    let big: Vec<i64> = Vec::new();
    let little: Vec<i64> = Vec::new();
    let (pm, lm) = init(75, &big, &little, loop_rx, fx_rx).unwrap();
    (pm, lm, loop_tx)
}

#[test]
fn metronome_plays_through_the_channels() {
    // The clicks synthesized into register 0 come back out of the playback
    // engine, measure after measure, through the real sample channels.
    let (loop_tx, loop_rx) = sync_channel::<LoopMessage>(5);
    let (_fx_tx, fx_rx) = sync_channel::<EffectMessage>(5);
    let big = vec![900_000i64];
    let little = vec![400_000i64];
    let (mut pm, mut lm) = init(75, &big, &little, loop_rx, fx_rx).unwrap();
    drop(loop_tx);
    // Beat boundaries at 75 BPM fall every 38400 samples: exactly every 75
    // blocks, so each click lands at position 0 of its block.
    for measure in 0..2 {
        for b in 0..300usize {
            let input = vec![0i64; 512];
            let mut output = vec![0i64; 512];
            pm.process_block(&input, &mut output).unwrap();
            let expected_head: i64 = if b == 0 {
                900_000
            } else if b % 75 == 0 {
                400_000
            } else {
                0
            };
            assert_eq!(output[0], expected_head, "measure {} block {}", measure, b);
            for k in 1..512 {
                assert_eq!(output[k], 0);
            }
            pump(&mut lm);
        }
    }
}

#[test]
fn two_measure_loop_replays_identically_each_cycle() {
    // A loop recorded for two measures replays them in order, cycles with
    // period two, and, after being toggled off and on again, restarts from
    // its first measure with the identical audio.
    let (mut pm, mut lm, tx) = session();
    let a: i64 = 111_000;
    let b: i64 = 222_000;

    command(&mut lm, &tx, LoopMessage::ToggleLoop(1));
    feed_blocks(&mut pm, &mut lm, 0, 300);  // measure 0: armed, waiting
    feed_blocks_expect(&mut pm, &mut lm, a, 300, a);  // measure 1 recorded
    feed_blocks(&mut pm, &mut lm, b, 295);  // most of measure 2 recorded
    command(&mut lm, &tx, LoopMessage::StopRecording);
    feed_blocks(&mut pm, &mut lm, b, 5);  // rest of measure 2; drain begins

    assert_eq!(lm.loop_length(1), 2);
    assert_eq!(lm.loop_samples(1).len(), 2 * 153600);

    // The finished loop is mixed into the output from the very next measure.
    feed_blocks_expect(&mut pm, &mut lm, 0, 300, a);  // measure 3
    feed_blocks_expect(&mut pm, &mut lm, 0, 300, b);  // measure 4
    // The identical two-measure sequence replays on the next cycle.
    feed_blocks_expect(&mut pm, &mut lm, 0, 300, a);  // measure 5
    feed_blocks(&mut pm, &mut lm, 0, 10);
    command(&mut lm, &tx, LoopMessage::ToggleLoop(1));  // On -> Off
    feed_blocks_expect(&mut pm, &mut lm, 0, 290, b);  // measure 6 already mixed
    assert_eq!(lm.loop_status(1), LoopStatus::Off);
    feed_blocks(&mut pm, &mut lm, 0, 10);
    command(&mut lm, &tx, LoopMessage::ToggleLoop(1));  // Off -> On, offset 0
    feed_blocks_expect(&mut pm, &mut lm, 0, 290, 0);  // measure 7: silent
    // The round trip: the same two measures again, from the start.
    feed_blocks_expect(&mut pm, &mut lm, 0, 300, a);  // measure 8
    feed_blocks_expect(&mut pm, &mut lm, 0, 300, b);  // measure 9
}

#[test]
fn three_loops_mix_to_their_sum() {
    // Three loops recorded one after the other all sound at once: each
    // output sample is the sample-wise sum of the three recordings.
    let (mut pm, mut lm, tx) = session();
    let a: i64 = 100_000;
    let b: i64 = 200_000;
    let c: i64 = 300_000;

    feed_blocks(&mut pm, &mut lm, 0, 10);
    command(&mut lm, &tx, LoopMessage::ToggleLoop(1));
    feed_blocks(&mut pm, &mut lm, 0, 290);  // rest of measure 0
    feed_blocks(&mut pm, &mut lm, a, 150);  // measure 1 recording
    command(&mut lm, &tx, LoopMessage::StopRecording);
    feed_blocks(&mut pm, &mut lm, a, 150);  // rest of measure 1

    feed_blocks(&mut pm, &mut lm, 0, 10);  // measure 2: loop 1 audible now
    command(&mut lm, &tx, LoopMessage::ToggleLoop(2));
    feed_blocks(&mut pm, &mut lm, 0, 290);
    feed_blocks(&mut pm, &mut lm, b, 150);  // measure 3 recording
    command(&mut lm, &tx, LoopMessage::StopRecording);
    feed_blocks(&mut pm, &mut lm, b, 150);

    feed_blocks(&mut pm, &mut lm, 0, 10);  // measure 4
    command(&mut lm, &tx, LoopMessage::ToggleLoop(3));
    feed_blocks(&mut pm, &mut lm, 0, 290);
    feed_blocks(&mut pm, &mut lm, c, 150);  // measure 5 recording
    command(&mut lm, &tx, LoopMessage::StopRecording);
    feed_blocks(&mut pm, &mut lm, c, 150);

    assert_eq!(lm.loop_status(1), LoopStatus::On(0));
    assert_eq!(lm.loop_status(2), LoopStatus::On(0));
    assert_eq!(lm.loop_status(3), LoopStatus::On(0));
    // Measures 6 and 7: all three loops sound at once.
    feed_blocks_expect(&mut pm, &mut lm, 0, 600, a + b + c);
}

#[test]
fn starved_mix_channel_is_an_underrun() {
    // Without the loop engine keeping pace, the playback engine owns one
    // prefilled measure of metronome audio (300 blocks) and then runs dry.
    let (mut pm, _lm, _tx) = session();
    for _ in 0..300 {
        let input = vec![0i64; 512];
        let mut output = vec![0i64; 512];
        pm.process_block(&input, &mut output).unwrap();
    }
    let input = vec![0i64; 512];
    let mut output = vec![0i64; 512];
    assert_eq!(
        pm.process_block(&input, &mut output),
        Err(PlaybackError::Underrun),
    );
}

#[test]
fn clock_position_tracks_the_samples_fed() {
    // The measure position after t samples is ((t - 1) mod 153600) + 1:
    // the counter resets only when the next measure's first sample arrives.
    let (mut pm, mut lm, _tx) = session();
    assert_eq!(pm.position_in_measure(), 0);
    feed_blocks(&mut pm, &mut lm, 0, 1);
    assert_eq!(pm.position_in_measure(), 512);
    feed_blocks(&mut pm, &mut lm, 0, 299);
    assert_eq!(pm.position_in_measure(), 153600);
    feed_blocks(&mut pm, &mut lm, 0, 1);
    assert_eq!(pm.position_in_measure(), 512);
}
