//! The playback stage: the engine the real-time audio callback drives.
//!
//! Once per audio block it tags the processed live signal with the clock
//! protocol's markers and streams it to the loop stage, then takes exactly
//! one block of pre-mixed loop audio from the loop stage and adds it into
//! the output.  The ghost histories record every sample fed in, every clock
//! event pushed, and every mixed sample consumed, so the contracts can state
//! the protocol exactly: the pushed events are precisely
//! `clock_stream(inputs)`.
use vstd::prelude::*;
use crate::channel::channel_pop;
use crate::channel::channel_push;
use crate::channel::clock_queue_capacity;
use crate::channel::poll_receiver;
use crate::clock::clock_stream;
use crate::clock::counter_after;
use crate::clock::lemma_clock_stream_prefix;
use crate::clock::lemma_prefix_chain;
use crate::clock::seq_prefix_of;
use crate::clock::marks_at;
use crate::clock::Sample;
use crate::interface::EffectMessage;
use crate::sample_ok;
use crate::BUFFER_SIZE;
use crate::MIX_LIMIT;

verus! {

/// Fatal failures of the playback stage.  Each one means the loop stage and
/// the playback stage have lost step and the audio would be corrupt, so the
/// caller must stop processing.
#[derive(Clone, Copy, Debug, PartialEq, Eq, Structural)]
pub enum PlaybackError {
    /// The clocked sample channel had no room for the next event.
    StreamFull,
    /// The mixed-audio channel ran dry where a block of mixed loop audio
    /// was owed.
    Underrun,
    /// A value taken from the mixed-audio channel was outside the range any
    /// mix of full-scale loops can reach.
    MixOutOfRange,
}

/// A value the mixer can legitimately produce: no mix of full-scale loops
/// exceeds this range.
pub open spec fn mix_ok(v: i64) -> bool {
    -MIX_LIMIT <= v <= MIX_LIMIT
}

/// Wraps the real-time processing step: applies the clock protocol to the
/// incoming signal, forwards it to the loop stage, and mixes the loop
/// stage's answer into the output block.
pub struct PlaybackManager {
    /// Consumer half of the mixed-audio channel from the loop stage.
    loops: ringbuf::Consumer<i64>,
    /// Samples seen since the last measure boundary, in `[0, spm]`.
    sample_counter: usize,
    /// Samples in one measure; fixed for the session.
    samples_per_measure: usize,
    /// Producer half of the clocked sample channel to the loop stage.
    stream: ringbuf::Producer<Sample>,
    /// Queue of effect-toggle commands from the control surface.
    effects_message_receiver: std::sync::mpsc::Receiver<EffectMessage>,
    /// Compression on?
    compress: bool,
    /// Distortion on?
    distort: bool,
    /// Every sample fed through `process_block` so far.
    inputs: Ghost<Seq<i64>>,
    /// Every clock event pushed to the loop stage so far.
    emitted: Ghost<Seq<Sample>>,
    /// Every mixed sample taken from the loop stage so far.
    consumed: Ghost<Seq<i64>>,
}

impl PlaybackManager {
    /// All samples fed through the engine so far.
    pub closed spec fn inputs(self) -> Seq<i64> {
        self.inputs@
    }

    /// All clock events pushed to the loop stage so far.
    pub closed spec fn emitted(self) -> Seq<Sample> {
        self.emitted@
    }

    /// All mixed samples taken from the loop stage so far.
    pub closed spec fn consumed(self) -> Seq<i64> {
        self.consumed@
    }

    /// Samples per measure, as the engine was configured with.
    pub closed spec fn spm(self) -> nat {
        self.samples_per_measure as nat
    }

    /// Compression flag.
    pub closed spec fn compression_on(self) -> bool {
        self.compress
    }

    /// Distortion flag.
    pub closed spec fn distortion_on(self) -> bool {
        self.distort
    }

    /// How many events the clocked sample queue to the loop stage was
    /// created to hold.
    pub closed spec fn clock_capacity(self) -> nat {
        clock_queue_capacity(self.stream)
    }

    /// The engine's invariant: the events pushed so far are exactly what the
    /// clock protocol prescribes for the samples fed so far, and the sample
    /// counter stands where that history leaves it.
    pub closed spec fn wf(self) -> bool {
        &&& self.samples_per_measure > BUFFER_SIZE
        &&& self.sample_counter <= self.samples_per_measure
        &&& self.sample_counter == counter_after(self.inputs@.len(), self.spm())
        &&& self.emitted@ == clock_stream(self.inputs@, self.spm(), BUFFER_SIZE as nat)
    }

    /// Makes a playback engine around the two channel halves.  No samples
    /// have been processed, no events pushed, and both effects start off.
    pub fn new(
        loops: ringbuf::Consumer<i64>,
        stream: ringbuf::Producer<Sample>,
        samples_per_measure: usize,
        effects_message_receiver: std::sync::mpsc::Receiver<EffectMessage>,
    ) -> (r: PlaybackManager)
        requires
            samples_per_measure > BUFFER_SIZE,
        ensures
            r.wf(),
            r.spm() == samples_per_measure,
            r.clock_capacity() == clock_queue_capacity(stream),
            r.inputs() == Seq::<i64>::empty(),
            r.emitted() == Seq::<Sample>::empty(),
            r.consumed() == Seq::<i64>::empty(),
            !r.compression_on(),
            !r.distortion_on(),
    {
        PlaybackManager {
            loops,
            stream,
            samples_per_measure,
            sample_counter: 0,
            effects_message_receiver,
            compress: false,
            distort: false,
            inputs: Ghost(Seq::empty()),
            emitted: Ghost(Seq::empty()),
            consumed: Ghost(Seq::empty()),
        }
    }

    /// True when the compressor should be applied to the incoming block.
    pub fn compression_enabled(&self) -> (r: bool)
        ensures
            r == self.compression_on(),
    {
        self.compress
    }

    /// True when the distortion should be applied to the incoming block.
    pub fn distortion_enabled(&self) -> (r: bool)
        ensures
            r == self.distortion_on(),
    {
        self.distort
    }

    /// Flips the flag the command addresses; nothing else changes.
    pub fn apply_effect_message(&mut self, message: EffectMessage)
        ensures
            final(self).compression_on() == (if message is ToggleCompression {
                !old(self).compression_on()
            } else {
                old(self).compression_on()
            }),
            final(self).distortion_on() == (if message is ToggleDistortion {
                !old(self).distortion_on()
            } else {
                old(self).distortion_on()
            }),
            final(self).wf() == old(self).wf(),
            final(self).inputs() == old(self).inputs(),
            final(self).emitted() == old(self).emitted(),
            final(self).consumed() == old(self).consumed(),
            final(self).spm() == old(self).spm(),
    {
        match message {
            EffectMessage::ToggleCompression => {
                self.compress = !self.compress;
            },
            EffectMessage::ToggleDistortion => {
                self.distort = !self.distort;
            },
        }
    }

    /// Polls the effect-command queue without blocking and applies the one
    /// pending command, if any; returns what was applied so the caller can
    /// report it.
    pub fn check_messages(&mut self) -> (r: Option<EffectMessage>)
        ensures
            r is None ==> final(self).compression_on() == old(self).compression_on()
                && final(self).distortion_on() == old(self).distortion_on(),
            r matches Some(m) ==> final(self).compression_on() == (if m is ToggleCompression {
                !old(self).compression_on()
            } else {
                old(self).compression_on()
            }) && final(self).distortion_on() == (if m is ToggleDistortion {
                !old(self).distortion_on()
            } else {
                old(self).distortion_on()
            }),
            final(self).wf() == old(self).wf(),
            final(self).inputs() == old(self).inputs(),
            final(self).emitted() == old(self).emitted(),
            final(self).consumed() == old(self).consumed(),
            final(self).spm() == old(self).spm(),
    {
        match poll_receiver(&self.effects_message_receiver) {
            Some(message) => {
                self.apply_effect_message(message);
                Some(message)
            },
            None => None,
        }
    }

    /// One real-time processing step.  `input` is the live block, with any
    /// enabled effects already applied by the caller; `output` receives the
    /// live block plus one block of mixed loop audio.  Exactly the clock
    /// protocol's events for these samples are pushed to the loop stage.
    /// On an error the engines have lost step and processing must stop.
    pub fn process_block(&mut self, input: &Vec<i64>, output: &mut Vec<i64>) -> (r: Result<
        (),
        PlaybackError,
    >)
        requires
            old(self).wf(),
            input@.len() == BUFFER_SIZE,
            old(output)@.len() == BUFFER_SIZE,
            forall|i: int| 0 <= i < input@.len() ==> sample_ok(#[trigger] input@[i]),
        ensures
            r is Ok ==> {
                &&& final(self).wf()
                &&& final(self).inputs() == old(self).inputs() + input@
                &&& final(self).emitted() == clock_stream(
                    old(self).inputs() + input@,
                    final(self).spm(),
                    BUFFER_SIZE as nat,
                )
                &&& final(self).consumed().len() == old(self).consumed().len() + BUFFER_SIZE
                &&& final(self).consumed().subrange(0, old(self).consumed().len() as int) == old(
                    self,
                ).consumed()
                &&& final(output)@.len() == BUFFER_SIZE
                &&& forall|i: int|
                    0 <= i < BUFFER_SIZE ==> #[trigger] final(output)@[i] == input@[i] + final(self).consumed()[
                        old(self).consumed().len() + i
                    ]
                &&& forall|i: int|
                    0 <= i < BUFFER_SIZE ==> mix_ok(
                        #[trigger] final(self).consumed()[old(self).consumed().len() + i],
                    )
            },
            // Whatever failed, the events already pushed follow the protocol
            // for a prefix of this block's samples.
            seq_prefix_of(
                final(self).emitted(),
                clock_stream(old(self).inputs() + input@, old(self).spm(), BUFFER_SIZE as nat),
            ),
            final(self).consumed().len() >= old(self).consumed().len(),
            final(self).consumed().len() <= old(self).consumed().len() + BUFFER_SIZE,
            final(self).consumed().subrange(0, old(self).consumed().len() as int) == old(
                self,
            ).consumed(),
            forall|q: int|
                old(self).consumed().len() <= q < final(self).consumed().len() - 1 ==> mix_ok(
                    #[trigger] final(self).consumed()[q],
                ),
            // The out-of-range fault comes exactly when the queue handed a
            // value no mix can produce, never on good data.
            (r == Err::<(), PlaybackError>(PlaybackError::MixOutOfRange)) <==> (
            final(self).consumed().len() > old(self).consumed().len() && !mix_ok(
                final(self).consumed().last(),
            )),
            r is Err ==> {
                ||| r == Err::<(), PlaybackError>(PlaybackError::StreamFull)
                ||| r == Err::<(), PlaybackError>(PlaybackError::Underrun)
                ||| r == Err::<(), PlaybackError>(PlaybackError::MixOutOfRange)
            },
            final(self).spm() == old(self).spm(),
            final(self).compression_on() == old(self).compression_on(),
            final(self).distortion_on() == old(self).distortion_on(),
    {
        let ghost full_stream = clock_stream(
            old(self).inputs@ + input@,
            old(self).spm(),
            BUFFER_SIZE as nat,
        );
        match self.send_stream(input) {
            Ok(()) => {},
            Err(e) => {
                proof {
                    assert(self.consumed@.subrange(0, old(self).consumed@.len() as int) =~= old(
                        self,
                    ).consumed@);
                }
                return Err(e);
            },
        }
        match self.play_loops(input, output) {
            Ok(()) => {},
            Err(e) => {
                proof {
                    assert(self.emitted@ =~= full_stream.subrange(0, self.emitted@.len() as int));
                }
                return Err(e);
            },
        }
        proof {
            assert(self.emitted@ =~= full_stream.subrange(0, self.emitted@.len() as int));
        }
        Ok(())
    }

    /// Streams one block to the loop stage under the clock protocol: a
    /// `Tick` where a measure boundary falls, a `PreTick` one block ahead
    /// of it, and every sample as `Data`, in order.
    fn send_stream(&mut self, input: &Vec<i64>) -> (r: Result<(), PlaybackError>)
        requires
            old(self).wf(),
        ensures
            r is Ok ==> {
                &&& final(self).wf()
                &&& final(self).inputs@ == old(self).inputs@ + input@
            },
            r is Err ==> r == Err::<(), PlaybackError>(PlaybackError::StreamFull),
            seq_prefix_of(
                final(self).emitted@,
                clock_stream(old(self).inputs@ + input@, old(self).spm(), BUFFER_SIZE as nat),
            ),
            final(self).consumed@ == old(self).consumed@,
            final(self).compress == old(self).compress,
            final(self).distort == old(self).distort,
            final(self).samples_per_measure == old(self).samples_per_measure,
    {
        let ghost initial = self.inputs@;
        let ghost full = initial + input@;
        let mut i: usize = 0;
        while i < input.len()
            invariant
                self.wf(),
                i <= input@.len(),
                initial == old(self).inputs@,
                full == initial + input@,
                self.inputs@ == initial + input@.subrange(0, i as int),
                self.consumed@ == old(self).consumed@,
                self.compress == old(self).compress,
                self.distort == old(self).distort,
                self.samples_per_measure == old(self).samples_per_measure,
            decreases input@.len() - i,
        {
            let x = input[i];
            let ghost before = self.inputs@;
            let ghost spm = self.spm();
            let ghost c = counter_after(before.len(), spm);
            proof {
                lemma_clock_stream_push(before, x, spm, BUFFER_SIZE as nat);
            }
            let remaining = self.samples_per_measure - self.sample_counter;
            if remaining == 0 {
                match channel_push(&mut self.stream, Sample::Tick) {
                    Ok(()) => {},
                    Err(_) => {
                        proof {
                            lemma_emitted_prefix_here(*self, initial, input@, i as int);
                        }
                        return Err(PlaybackError::StreamFull);
                    },
                }
                self.emitted = Ghost(self.emitted@.push(Sample::Tick));
                self.sample_counter = 0;
            } else if remaining == BUFFER_SIZE {
                match channel_push(&mut self.stream, Sample::PreTick) {
                    Ok(()) => {},
                    Err(_) => {
                        proof {
                            lemma_emitted_prefix_here(*self, initial, input@, i as int);
                        }
                        return Err(PlaybackError::StreamFull);
                    },
                }
                self.emitted = Ghost(self.emitted@.push(Sample::PreTick));
            }
            match channel_push(&mut self.stream, Sample::Data(x)) {
                Ok(()) => {},
                Err(_) => {
                    proof {
                        assert(self.emitted@ =~= clock_stream(before, spm, BUFFER_SIZE as nat)
                            + marks_at(c, spm, BUFFER_SIZE as nat));
                        lemma_emitted_prefix_here(*self, initial, input@, i as int);
                    }
                    return Err(PlaybackError::StreamFull);
                },
            }
            self.emitted = Ghost(self.emitted@.push(Sample::Data(x)));
            self.inputs = Ghost(self.inputs@.push(x));
            self.sample_counter = self.sample_counter + 1;
            proof {
                assert(self.inputs@.len() == before.len() + 1);
                assert(self.emitted@ =~= clock_stream(before, spm, BUFFER_SIZE as nat) + marks_at(
                    c,
                    spm,
                    BUFFER_SIZE as nat,
                ) + seq![Sample::Data(x)]);
                assert(self.inputs@ =~= initial + input@.subrange(0, i + 1));
            }
            i = i + 1;
        }
        proof {
            assert(self.inputs@ =~= initial + input@);
            assert(self.emitted@ =~= clock_stream(full, self.spm(), BUFFER_SIZE as nat).subrange(
                0,
                self.emitted@.len() as int,
            ));
        }
        Ok(())
    }

    /// Takes exactly one block of mixed loop audio from the loop stage and
    /// adds it sample-wise into the output block.  Every popped value is
    /// recorded in the consumed history; one outside the mixer's possible
    /// range stops processing, and only such a value does.
    fn play_loops(&mut self, input: &Vec<i64>, output: &mut Vec<i64>) -> (r: Result<
        (),
        PlaybackError,
    >)
        requires
            input@.len() == BUFFER_SIZE,
            old(output)@.len() == BUFFER_SIZE,
            forall|i: int| 0 <= i < input@.len() ==> sample_ok(#[trigger] input@[i]),
        ensures
            r is Ok ==> {
                &&& final(self).consumed@.len() == old(self).consumed@.len() + BUFFER_SIZE
                &&& final(output)@.len() == BUFFER_SIZE
                &&& forall|i: int|
                    0 <= i < BUFFER_SIZE ==> #[trigger] final(output)@[i] == input@[i] + final(self).consumed@[
                        old(self).consumed@.len() + i
                    ]
                &&& forall|i: int|
                    0 <= i < BUFFER_SIZE ==> mix_ok(
                        #[trigger] final(self).consumed@[old(self).consumed@.len() + i],
                    )
            },
            final(self).consumed@.len() >= old(self).consumed@.len(),
            final(self).consumed@.len() <= old(self).consumed@.len() + BUFFER_SIZE,
            final(self).consumed@.subrange(0, old(self).consumed@.len() as int) == old(
                self,
            ).consumed@,
            forall|q: int|
                old(self).consumed@.len() <= q < final(self).consumed@.len() - 1 ==> mix_ok(
                    #[trigger] final(self).consumed@[q],
                ),
            (r == Err::<(), PlaybackError>(PlaybackError::MixOutOfRange)) <==> (
            final(self).consumed@.len() > old(self).consumed@.len() && !mix_ok(
                final(self).consumed@.last(),
            )),
            r is Err ==> r == Err::<(), PlaybackError>(PlaybackError::Underrun) || r == Err::<
                (),
                PlaybackError,
            >(PlaybackError::MixOutOfRange),
            final(self).inputs@ == old(self).inputs@,
            final(self).emitted@ == old(self).emitted@,
            final(self).compress == old(self).compress,
            final(self).distort == old(self).distort,
            final(self).samples_per_measure == old(self).samples_per_measure,
            final(self).sample_counter == old(self).sample_counter,
    {
        let ghost base = self.consumed@;
        let mut i: usize = 0;
        while i < BUFFER_SIZE
            invariant
                i <= BUFFER_SIZE,
                input@.len() == BUFFER_SIZE,
                output@.len() == BUFFER_SIZE,
                forall|k: int| 0 <= k < input@.len() ==> sample_ok(#[trigger] input@[k]),
                base == old(self).consumed@,
                self.consumed@.len() == base.len() + i,
                self.consumed@.subrange(0, base.len() as int) == base,
                forall|k: int|
                    0 <= k < i ==> #[trigger] output@[k] == input@[k] + self.consumed@[
                        base.len() + k
                    ],
                forall|q: int|
                    base.len() <= q < self.consumed@.len() ==> mix_ok(
                        #[trigger] self.consumed@[q],
                    ),
                self.inputs@ == old(self).inputs@,
                self.emitted@ == old(self).emitted@,
                self.compress == old(self).compress,
                self.distort == old(self).distort,
                self.samples_per_measure == old(self).samples_per_measure,
                self.sample_counter == old(self).sample_counter,
            decreases BUFFER_SIZE - i,
        {
            let mixed = match channel_pop(&mut self.loops) {
                Some(v) => v,
                None => {
                    proof {
                        assert(self.consumed@.subrange(0, base.len() as int) =~= base);
                        if self.consumed@.len() > base.len() {
                            assert(self.consumed@.last() == self.consumed@[base.len() + (
                            i - 1)]);
                            assert(mix_ok(self.consumed@.last()));
                        }
                    }
                    return Err(PlaybackError::Underrun);
                },
            };
            self.consumed = Ghost(self.consumed@.push(mixed));
            proof {
                assert(self.consumed@.subrange(0, base.len() as int) =~= base);
            }
            if mixed > MIX_LIMIT || mixed < -MIX_LIMIT {
                return Err(PlaybackError::MixOutOfRange);
            }
            output[i] = input[i] + mixed;
            i = i + 1;
        }
        proof {
            if self.consumed@.len() > base.len() {
                assert(self.consumed@.last() == self.consumed@[base.len() + (i - 1)]);
                assert(mix_ok(self.consumed@.last()));
            }
        }
        Ok(())
    }

    /// How far into the current measure the clock stands, in samples.
    pub fn position_in_measure(&self) -> (r: usize)
        ensures
            self.wf() ==> r == counter_after(self.inputs().len(), self.spm()) && r <= self.spm(),
    {
        self.sample_counter
    }
}

/// At a mid-block failure the events already pushed follow the protocol: the
/// engine's event history is a prefix of the stream prescribed for the whole
/// block, since at most the markers of the sample being processed are out.
proof fn lemma_emitted_prefix_here(st: PlaybackManager, initial: Seq<i64>, input: Seq<i64>, i: int)
    requires
        0 <= i < input.len(),
        ({
            let before = initial + input.subrange(0, i);
            st.emitted@ == clock_stream(before, st.spm(), BUFFER_SIZE as nat) || st.emitted@
                == clock_stream(before, st.spm(), BUFFER_SIZE as nat) + marks_at(
                counter_after(before.len(), st.spm()),
                st.spm(),
                BUFFER_SIZE as nat,
            )
        }),
    ensures
        seq_prefix_of(
            st.emitted@,
            clock_stream(initial + input, st.spm(), BUFFER_SIZE as nat),
        ),
{
    let spm = st.spm();
    let block = BUFFER_SIZE as nat;
    let full = initial + input;
    let before = initial + input.subrange(0, i);
    let ext = before.push(input[i]);
    assert(ext =~= full.subrange(0, before.len() as int + 1));
    lemma_clock_stream_push(before, input[i], spm, block);
    assert(seq_prefix_of(st.emitted@, clock_stream(ext, spm, block))) by {
        assert(st.emitted@ =~= clock_stream(ext, spm, block).subrange(
            0,
            st.emitted@.len() as int,
        ));
    }
    lemma_clock_stream_prefix(ext, full, spm, block);
    lemma_prefix_chain(
        st.emitted@,
        clock_stream(ext, spm, block),
        clock_stream(full, spm, block),
    );
}

/// Appending one sample extends the protocol's event sequence by that
/// sample's markers and its `Data` event.
proof fn lemma_clock_stream_push(inputs: Seq<i64>, x: i64, spm: nat, block: nat)
    ensures
        clock_stream(inputs.push(x), spm, block) == clock_stream(inputs, spm, block) + marks_at(
            counter_after(inputs.len(), spm),
            spm,
            block,
        ) + seq![Sample::Data(x)],
{
    assert(inputs.push(x).drop_last() =~= inputs);
    assert(inputs.push(x).last() == x);
}

} // verus!
