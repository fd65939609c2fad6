//! A live looper-pedal audio engine: it synchronizes a metronome-driven
//! clock with a register of recordable loops, mixes the active loops one
//! measure ahead of playback, and exchanges samples with the real-time
//! audio callback through two single-producer/single-consumer queues.
//!
//! Audio samples are fixed-point values (`i64`); the unverified shell
//! converts between the transport's floating-point blocks and this
//! representation.
use vstd::prelude::*;

pub mod channel;
pub mod clock;
pub mod interface;
pub mod loop_manager;
pub mod mix;
pub mod playback_manager;

verus! {

/// Size in samples of one audio block handed to the playback engine.
pub const BUFFER_SIZE: usize = 512;

/// Samples per second of the audio transport.
pub const SAMPLE_RATE: usize = 48000;

/// Samples in one minute of audio, the base for tempo arithmetic.
pub const SAMPLES_PER_MINUTE: usize = SAMPLE_RATE * 60;

/// How many loop registers the engine owns; register 0 is the metronome.
pub const NUM_LOOPS: usize = 24;

/// Largest magnitude of one fixed-point audio sample the engine stores,
/// records, or accepts as input.  The unverified shell maps the transport's
/// unit-range floating-point samples well inside this range.
pub const SAMPLE_LIMIT: i64 = 0x100_0000_0000;

/// Largest magnitude one mixed sample can reach: every loop register playing
/// a full-scale sample at once (`NUM_LOOPS * SAMPLE_LIMIT`).
pub const MIX_LIMIT: i64 = 24 * SAMPLE_LIMIT;

/// A fixed-point sample the engine may store and mix.
pub open spec fn sample_ok(s: i64) -> bool {
    -SAMPLE_LIMIT <= s <= SAMPLE_LIMIT
}

/// Startup configuration faults; each is fatal before any audio is
/// processed.
#[derive(Clone, Copy, Debug, PartialEq, Eq, Structural)]
pub enum ConfigError {
    /// The tempo was zero: no measure length can be derived from it.
    BadTempo,
    /// A measure at this tempo is too short for the clock protocol's
    /// one-block lookahead and the mid-measure recording handoff.
    MeasureTooShort,
    /// A metronome click is longer than one beat, so the clicks cannot be
    /// tiled into a one-measure loop.
    ClickTooLong,
    /// The mixed-audio queue could not take a sample of the metronome's
    /// first measure.  `init` sizes that queue to two full measures and the
    /// loop engine requires room for one, so this cannot arise through
    /// them; the variant completes the startup taxonomy for that check.
    ChannelFull,
}

/// Samples in one beat at `bpm` beats per minute.
pub open spec fn spec_samples_per_beat(bpm: nat) -> nat
    recommends
        bpm > 0,
{
    (SAMPLES_PER_MINUTE as nat) / bpm
}

/// Samples in one measure: four beats, the only supported time signature.
pub open spec fn spec_samples_per_measure(bpm: nat) -> nat
    recommends
        bpm > 0,
{
    spec_samples_per_beat(bpm) * 4
}

/// Samples in one beat at `bpm` beats per minute.
pub fn samples_per_beat(bpm: usize) -> (r: usize)
    requires
        bpm > 0,
    ensures
        r == spec_samples_per_beat(bpm as nat),
{
    SAMPLES_PER_MINUTE / bpm
}

/// Samples in one measure at `bpm` beats per minute.
pub fn samples_per_measure(bpm: usize) -> (r: usize)
    requires
        bpm > 0,
    ensures
        r == spec_samples_per_measure(bpm as nat),
        r == spec_samples_per_beat(bpm as nat) * 4,
{
    (SAMPLES_PER_MINUTE / bpm) * 4
}

/// Wires up the two engines for one session: derives the timing constants
/// from the tempo, makes the two sample channels sized to hold two full
/// measures each, builds the loop engine (with its metronome register) and
/// the playback engine around them, and hands both back.  The command
/// receivers come from the caller, which keeps the sending ends.
pub fn init(
    bpm: usize,
    big_tick: &Vec<i64>,
    little_tick: &Vec<i64>,
    loop_message_receiver: std::sync::mpsc::Receiver<interface::LoopMessage>,
    effects_message_receiver: std::sync::mpsc::Receiver<interface::EffectMessage>,
) -> (r: Result<(playback_manager::PlaybackManager, loop_manager::LoopManager), ConfigError>)
    requires
        forall|k: int| 0 <= k < big_tick@.len() ==> sample_ok(#[trigger] big_tick@[k]),
        forall|k: int| 0 <= k < little_tick@.len() ==> sample_ok(#[trigger] little_tick@[k]),
    ensures
        (bpm == 0) <==> r == Err::<
            (playback_manager::PlaybackManager, loop_manager::LoopManager),
            ConfigError,
        >(ConfigError::BadTempo),
        (bpm != 0 && spec_samples_per_measure(bpm as nat) < 2 * BUFFER_SIZE + 2) <==> r == Err::<
            (playback_manager::PlaybackManager, loop_manager::LoopManager),
            ConfigError,
        >(ConfigError::MeasureTooShort),
        (bpm != 0 && spec_samples_per_measure(bpm as nat) >= 2 * BUFFER_SIZE + 2 && (
        big_tick@.len() > spec_samples_per_beat(bpm as nat) || little_tick@.len()
            > spec_samples_per_beat(bpm as nat))) <==> r == Err::<
            (playback_manager::PlaybackManager, loop_manager::LoopManager),
            ConfigError,
        >(ConfigError::ClickTooLong),
        r is Err ==> (bpm == 0 || spec_samples_per_measure(bpm as nat) < 2 * BUFFER_SIZE + 2
            || big_tick@.len() > spec_samples_per_beat(bpm as nat) || little_tick@.len()
            > spec_samples_per_beat(bpm as nat)),
        r matches Ok(pair) ==> {
            &&& pair.0.wf()
            &&& pair.1.wf()
            &&& pair.0.spm() == spec_samples_per_measure(bpm as nat)
            &&& pair.1.spm() == spec_samples_per_measure(bpm as nat)
            &&& pair.0.inputs() == Seq::<i64>::empty()
            &&& pair.0.emitted() == Seq::<clock::Sample>::empty()
            &&& pair.0.consumed() == Seq::<i64>::empty()
            &&& !pair.0.compression_on()
            &&& !pair.0.distortion_on()
            &&& !pair.1.draining()
            &&& pair.1.rec_index() is None
            &&& pair.1.loop_at(0) == loop_manager::spec_metronome(
                big_tick@,
                little_tick@,
                spec_samples_per_beat(bpm as nat),
            )
            &&& pair.1.loop_at(0).len() == pair.1.spm()
            &&& pair.1.statuses()[0] == loop_manager::LoopStatus::On(0usize)
            &&& pair.1.lengths()[0] == 1
            &&& forall|i: int|
                1 <= i < NUM_LOOPS ==> #[trigger] pair.1.statuses()[i]
                    == loop_manager::LoopStatus::Empty && pair.1.lengths()[i] == 0
                    && pair.1.loop_at(i).len() == 0
            &&& pair.1.mixed() == pair.1.loop_at(0)
            &&& pair.1.mix_capacity() == 2 * spec_samples_per_measure(bpm as nat)
            &&& pair.0.clock_capacity() == 2 * spec_samples_per_measure(bpm as nat)
        },
{
    if bpm == 0 {
        return Err(ConfigError::BadTempo);
    }
    let samples_per_beat = SAMPLES_PER_MINUTE / bpm;
    proof {
        assert((SAMPLES_PER_MINUTE as int) / (bpm as int) <= SAMPLES_PER_MINUTE as int)
            by (nonlinear_arith)
            requires
                bpm >= 1,
        ;
    }
    let spm = samples_per_beat * 4;
    if spm < 2 * BUFFER_SIZE + 2 {
        return Err(ConfigError::MeasureTooShort);
    }
    let capacity = spm * 2;
    let (stream_producer, stream_consumer) = channel::make_clock_channel(capacity);
    let (loop_producer, loop_consumer) = channel::make_audio_channel(capacity);
    let lm = match loop_manager::LoopManager::new(
        loop_producer,
        stream_consumer,
        samples_per_beat,
        loop_message_receiver,
        big_tick,
        little_tick,
    ) {
        Ok(lm) => lm,
        Err(e) => {
            return Err(e);
        },
    };
    let pm = playback_manager::PlaybackManager::new(
        loop_consumer,
        stream_producer,
        spm,
        effects_message_receiver,
    );
    Ok((pm, lm))
}

} // verus!
