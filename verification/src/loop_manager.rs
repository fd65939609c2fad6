//! The loop register engine: the state machine that records, stores,
//! activates, deactivates, and mixes loops.
//!
//! It drains the clocked sample stream from the playback stage, keeps the
//! per-loop state machine (`Empty`, `Off`, `On`, `RecordStart`, `Recording`,
//! `RecordEnd`), and, on every `PreTick`, streams one full measure of mixed
//! loop audio back to the playback stage before that measure starts playing.
//! A loop whose recording is pending completion is mixed from its first
//! measure while its last measure is still arriving: the engine pushes the
//! first half of the mix, then enters a draining mode that appends the
//! remaining samples until the closing `Tick`, and only then pushes the
//! second half.  The ghost history `mixed` records every sample pushed to
//! the playback stage, so the contracts state the mix exactly.
use vstd::prelude::*;
use vstd::arithmetic::div_mod::lemma_fundamental_div_mod;
use vstd::arithmetic::div_mod::lemma_fundamental_div_mod_converse;
use vstd::arithmetic::mul::lemma_mul_inequality;
use crate::channel::audio_push;
use crate::channel::audio_queue_capacity;
use crate::channel::audio_queue_pushed;
use crate::channel::channel_pop;
use crate::channel::poll_receiver;
use crate::clock::Sample;
use crate::interface::LoopMessage;
use crate::mix::loop_contribution;
use crate::mix::mix_sample;
use crate::sample_ok;
use crate::ConfigError;
use crate::NUM_LOOPS;
use crate::SAMPLE_LIMIT;
use crate::MIX_LIMIT;

verus! {

/// The state of one loop register.
#[derive(Clone, Copy, Debug, PartialEq, Eq, Structural)]
pub enum LoopStatus {
    /// Holds audio but does not play.
    Off,
    /// Playing; the field is the measure of its own audio the loop
    /// currently plays, always below its length in measures.
    On(usize),
    /// Will start recording at the next measure boundary.
    RecordStart,
    /// Recording now: every incoming sample is appended.
    Recording,
    /// Will stop recording at the end of the current measure.
    RecordEnd,
    /// Never recorded; holds nothing.
    Empty,
}

impl LoopStatus {
    /// Moves a playing loop to its next measure, wrapping around at the
    /// loop's length in measures.
    pub fn increment(&mut self, length: usize)
        requires
            *old(self) is On,
            (*old(self))->0 < length,
        ensures
            *final(self) == LoopStatus::On(
                ((((*old(self))->0 + 1) as int) % (length as int)) as usize,
            ),
    {
        match self {
            LoopStatus::On(x) => {
                *x = (*x + 1) % length;
            },
            _ => {},
        }
    }
}

/// Fatal failures of the loop stage: the two engines' clocks have lost step
/// or a channel limit was hit, and continuing would corrupt the audio.
#[derive(Clone, Copy, Debug, PartialEq, Eq, Structural)]
pub enum LoopError {
    /// A `PreTick` arrived while the engine was still draining the previous
    /// recording: the stages have desynchronized.
    StreamDesync,
    /// The drained recording did not close exactly on a measure boundary.
    MeasureMismatch,
    /// A recording was pending completion at a `PreTick` but less than half
    /// a measure of it had arrived.
    RecordingTooShort,
    /// The mixed-audio channel had no room for the next sample.
    PlaybackFull,
    /// A sample outside the engine's fixed-point range arrived while
    /// recording.
    SampleOutOfRange,
    /// A recording grew past the largest representable measure count.
    LengthOverflow,
}

/// Report of one recoverable oddity: the command was ignored and the engine
/// carried on.
#[derive(Clone, Copy, Debug, PartialEq, Eq, Structural)]
pub enum LoopNotice {
    /// A loop was asked to record while the named register already is.
    AlreadyRecording(usize),
    /// The toggled loop is recording right now.
    BusyRecording,
    /// The toggled loop is already armed to record.
    PendingRecord,
    /// The toggled loop is already wrapping up its recording.
    PendingFinish,
    /// Stop was asked for while nothing records.
    NotRecording,
    /// The toggled index is outside the register.
    InvalidIndex,
}

/// Whether the engine is between a `PreTick` and the `Tick` that closes a
/// pending recording's final measure.
enum Mode {
    /// Ordinary event handling.
    Normal,
    /// The loop at `index` had its recording pending completion at the last
    /// `PreTick`: the first half of the measure's mix is already pushed,
    /// incoming samples append to that loop, and the closing `Tick` will
    /// finish the measure.  `base` is the mixed history as it stood when
    /// the measure's mix began.
    Draining { index: usize, base: Ghost<Seq<i64>> },
}

/// The loops a `PreTick` mixes: every register that is `On(offset)`, at its
/// own offset, and a register pending completion (`RecordEnd`), at offset
/// zero; each paired as (offset, register index), in register order.
pub open spec fn spec_active(status: Seq<LoopStatus>) -> Seq<(usize, usize)>
    decreases status.len(),
{
    if status.len() == 0 {
        Seq::empty()
    } else {
        spec_active(status.drop_last()) + (match status.last() {
            LoopStatus::On(x) => seq![(x, (status.len() - 1) as usize)],
            LoopStatus::RecordEnd => seq![(0usize, (status.len() - 1) as usize)],
            _ => Seq::empty(),
        })
    }
}

/// Every entry of `spec_active` points into the register and carries the
/// offset its status shows; there are at most as many entries as registers.
pub proof fn lemma_spec_active_entries(status: Seq<LoopStatus>)
    requires
        status.len() <= usize::MAX,
    ensures
        spec_active(status).len() <= status.len(),
        forall|k: int|
            0 <= k < spec_active(status).len() ==> {
                let e = #[trigger] spec_active(status)[k];
                &&& e.1 < status.len()
                &&& (status[e.1 as int] == LoopStatus::On(e.0) || (status[e.1 as int]
                    == LoopStatus::RecordEnd && e.0 == 0))
            },
    decreases status.len(),
{
    if status.len() > 0 {
        lemma_spec_active_entries(status.drop_last());
        let s = spec_active(status);
        let s0 = spec_active(status.drop_last());
        assert forall|k: int| 0 <= k < s.len() implies {
            let e = #[trigger] s[k];
            &&& e.1 < status.len()
            &&& (status[e.1 as int] == LoopStatus::On(e.0) || (status[e.1 as int]
                == LoopStatus::RecordEnd && e.0 == 0))
        } by {
            if k < s0.len() {
                assert(s[k] == s0[k]);
                let e = s0[k];
                assert(status.drop_last()[e.1 as int] == status[e.1 as int]);
            } else {
                match status.last() {
                    LoopStatus::On(x) => {
                        let tail = seq![(x, (status.len() - 1) as usize)];
                        assert(s =~= s0 + tail);
                        assert(s[k] == tail[k - s0.len()]);
                    },
                    LoopStatus::RecordEnd => {
                        let tail = seq![(0usize, (status.len() - 1) as usize)];
                        assert(s =~= s0 + tail);
                        assert(s[k] == tail[k - s0.len()]);
                    },
                    _ => {
                        assert(s =~= s0 + Seq::empty());
                    },
                }
            }
        }
    }
}

/// A status that takes part in recording, of which the register holds at
/// most one at a time.
pub open spec fn recording_status(s: LoopStatus) -> bool {
    s is RecordStart || s is Recording || s is RecordEnd
}

/// A playing loop moves to its next measure, wrapping at its length; any
/// other state stays put.
pub open spec fn advance_status(s: LoopStatus, length: usize) -> LoopStatus {
    if s is On {
        LoopStatus::On((((s->0 + 1) as int) % (length as int)) as usize)
    } else {
        s
    }
}

/// The register states after every active loop has been advanced by one
/// measure, in the order the active set lists them.
pub open spec fn advance_all(
    status: Seq<LoopStatus>,
    lengths: Seq<usize>,
    active: Seq<(usize, usize)>,
) -> Seq<LoopStatus>
    decreases active.len(),
{
    if active.len() == 0 {
        status
    } else {
        let prev = advance_all(status, lengths, active.drop_last());
        let j = active.last().1 as int;
        prev.update(j, advance_status(prev[j], lengths[j]))
    }
}

/// A run of silence.
pub open spec fn zeros(n: nat) -> Seq<i64> {
    Seq::new(n, |i: int| 0i64)
}

/// A click padded with silence up to one beat.
pub open spec fn pad_to(s: Seq<i64>, n: nat) -> Seq<i64>
    recommends
        s.len() <= n,
{
    s + zeros((n - s.len()) as nat)
}

/// The metronome's one-measure loop: the loud click on the first beat, the
/// soft click on each of the other three, each padded with silence to one
/// beat.
pub open spec fn spec_metronome(big: Seq<i64>, little: Seq<i64>, spb: nat) -> Seq<i64> {
    pad_to(big, spb) + pad_to(little, spb) + pad_to(little, spb) + pad_to(little, spb)
}

/// Resolving a pending recording to `On(0)` leaves the active set as it
/// was: the register took part at offset zero either way.
pub proof fn lemma_spec_active_update(status: Seq<LoopStatus>, i: int)
    requires
        0 <= i < status.len(),
        status.len() <= usize::MAX,
        status[i] == LoopStatus::RecordEnd,
    ensures
        spec_active(status.update(i, LoopStatus::On(0usize))) == spec_active(status),
    decreases status.len(),
{
    let s2 = status.update(i, LoopStatus::On(0usize));
    if i == status.len() - 1 {
        assert(s2.drop_last() =~= status.drop_last());
        assert(s2.last() == LoopStatus::On(0usize));
        assert(spec_active(s2) == spec_active(s2.drop_last()) + seq![
            (0usize, (status.len() - 1) as usize),
        ]);
        assert(spec_active(status) == spec_active(status.drop_last()) + seq![
            (0usize, (status.len() - 1) as usize),
        ]);
    } else {
        assert(s2.drop_last() =~= status.drop_last().update(i, LoopStatus::On(0usize)));
        assert(s2.last() == status.last());
        lemma_spec_active_update(status.drop_last(), i);
    }
}

/// The mixed sample at a position is unchanged when one register's audio is
/// only extended, as long as every active read of that register stays below
/// its old length.
pub proof fn lemma_mix_stable_under_append(
    loops: Seq<Seq<i64>>,
    loops2: Seq<Seq<i64>>,
    active: Seq<(usize, usize)>,
    spm: nat,
    pos: nat,
    idx: int,
)
    requires
        loops2.len() == loops.len(),
        0 <= idx < loops.len(),
        forall|j: int| 0 <= j < loops.len() && j != idx ==> loops2[j] == #[trigger] loops[j],
        loops[idx].len() <= loops2[idx].len(),
        loops2[idx].subrange(0, loops[idx].len() as int) == loops[idx],
        forall|k: int|
            0 <= k < active.len() ==> {
                let e = #[trigger] active[k];
                &&& e.1 < loops.len()
                &&& (e.1 == idx ==> e.0 * spm + pos < loops[idx].len())
            },
    ensures
        mix_sample(loops2, active, spm, pos) == mix_sample(loops, active, spm, pos),
    decreases active.len(),
{
    if active.len() > 0 {
        lemma_mix_stable_under_append(loops, loops2, active.drop_last(), spm, pos, idx);
        let e = active.last();
        if e.1 == idx {
            assert(loops2[idx][e.0 * spm + pos] == loops2[idx].subrange(
                0,
                loops[idx].len() as int,
            )[e.0 * spm + pos]);
        }
        assert(loop_contribution(loops2, e, spm, pos) == loop_contribution(loops, e, spm, pos));
    }
}

/// An engine with the same registers, states, lengths, and bookkeeping as a
/// well-formed one is itself well-formed, outside draining; only the queues
/// and the mixed history may differ.
proof fn lemma_wf_same_registers(pre: LoopManager, post: LoopManager)
    requires
        pre.wf(),
        !pre.draining(),
        !post.draining(),
        post.loops_view() == pre.loops_view(),
        post.statuses() == pre.statuses(),
        post.lengths() == pre.lengths(),
        post.spm() == pre.spm(),
        post.rec_index() == pre.rec_index(),
    ensures
        post.wf(),
{
    assert forall|i: int| 0 <= i < NUM_LOOPS implies post.slot_ok(i) by {
        assert(pre.slot_ok(i));
        assert(post.loop_at(i) == post.loops_view()[i]);
        assert(pre.loop_at(i) == pre.loops_view()[i]);
    }
    assert forall|i: int, k: int|
        0 <= i < NUM_LOOPS && 0 <= k < post.loop_at(i).len() implies sample_ok(
        #[trigger] post.loop_at(i)[k],
    ) by {
        assert(post.loop_at(i) == post.loops_view()[i]);
        assert(pre.loop_at(i) == pre.loops_view()[i]);
        assert(sample_ok(pre.loop_at(i)[k]));
    }
    assert(post.rec_ok()) by {
        assert forall|j: int|
            0 <= j < NUM_LOOPS implies recording_status(#[trigger] post.statuses()[j])
            == recording_status(pre.statuses()[j]) by {}
    }
}

/// What one command does to the register file: the state transition of the
/// command table, together with the notice an ignored command reports.
pub open spec fn message_step(
    pre: LoopManager,
    post: LoopManager,
    message: LoopMessage,
    notice: Option<LoopNotice>,
) -> bool {
    &&& post.loops_view() == pre.loops_view()
    &&& post.lengths() == pre.lengths()
    &&& post.mixed() == pre.mixed()
    &&& post.spm() == pre.spm()
    &&& post.draining() == pre.draining()
    &&& match message {
        LoopMessage::ToggleLoop(idx) => {
            if idx >= NUM_LOOPS {
                &&& post.statuses() == pre.statuses()
                &&& post.rec_index() == pre.rec_index()
                &&& notice == Some(LoopNotice::InvalidIndex)
            } else {
                match pre.statuses()[idx as int] {
                    LoopStatus::Off => {
                        &&& post.statuses() == pre.statuses().update(
                            idx as int,
                            LoopStatus::On(0usize),
                        )
                        &&& post.rec_index() == pre.rec_index()
                        &&& notice is None
                    },
                    LoopStatus::On(_) => {
                        &&& post.statuses() == pre.statuses().update(idx as int, LoopStatus::Off)
                        &&& post.rec_index() == pre.rec_index()
                        &&& notice is None
                    },
                    LoopStatus::Empty => {
                        match pre.rec_index() {
                            Some(r) => {
                                &&& post.statuses() == pre.statuses()
                                &&& post.rec_index() == pre.rec_index()
                                &&& notice == Some(LoopNotice::AlreadyRecording(r))
                            },
                            None => {
                                &&& post.statuses() == pre.statuses().update(
                                    idx as int,
                                    LoopStatus::RecordStart,
                                )
                                &&& post.rec_index() == Some(idx)
                                &&& notice is None
                            },
                        }
                    },
                    LoopStatus::Recording => {
                        &&& post.statuses() == pre.statuses()
                        &&& post.rec_index() == pre.rec_index()
                        &&& notice == Some(LoopNotice::BusyRecording)
                    },
                    LoopStatus::RecordStart => {
                        &&& post.statuses() == pre.statuses()
                        &&& post.rec_index() == pre.rec_index()
                        &&& notice == Some(LoopNotice::PendingRecord)
                    },
                    LoopStatus::RecordEnd => {
                        &&& post.statuses() == pre.statuses()
                        &&& post.rec_index() == pre.rec_index()
                        &&& notice == Some(LoopNotice::PendingFinish)
                    },
                }
            }
        },
        LoopMessage::StopRecording => {
            match pre.rec_index() {
                Some(i) => {
                    if pre.statuses()[i as int] is Recording || pre.statuses()[i as int]
                        is RecordEnd {
                        &&& post.statuses() == pre.statuses().update(
                            i as int,
                            LoopStatus::RecordEnd,
                        )
                        &&& post.rec_index() == pre.rec_index()
                        &&& notice is None
                    } else {
                        &&& post.statuses() == pre.statuses()
                        &&& post.rec_index() == pre.rec_index()
                        &&& notice == Some(LoopNotice::NotRecording)
                    }
                },
                None => {
                    &&& post.statuses() == pre.statuses()
                    &&& post.rec_index() == pre.rec_index()
                    &&& notice == Some(LoopNotice::NotRecording)
                },
            }
        },
    }
}

/// What a `Data` event does: while a register records (or its final measure
/// drains), the sample is appended to it; otherwise nothing changes.
pub open spec fn data_step(pre: LoopManager, post: LoopManager, x: i64) -> bool {
    &&& post.statuses() == pre.statuses()
    &&& post.lengths() == pre.lengths()
    &&& post.mixed() == pre.mixed()
    &&& post.rec_index() == pre.rec_index()
    &&& post.draining() == pre.draining()
    &&& post.spm() == pre.spm()
    &&& (pre.draining() ==> post.drain_target() == pre.drain_target() && post.drain_base()
        == pre.drain_base())
    &&& {
        let target = data_target(pre);
        match target {
            Some(i) => post.loops_view() == pre.loops_view().update(
                i as int,
                pre.loop_at(i as int).push(x),
            ),
            None => post.loops_view() == pre.loops_view(),
        }
    }
}

/// The register a `Data` event lands in, if any: the draining register, or
/// the one currently marked recording or wrapping up.
pub open spec fn data_target(pre: LoopManager) -> Option<usize> {
    if pre.draining() {
        Some(pre.drain_target() as usize)
    } else {
        match pre.rec_index() {
            Some(i) => if pre.statuses()[i as int] is Recording || pre.statuses()[i as int]
                is RecordEnd {
                Some(i)
            } else {
                None
            },
            None => None,
        }
    }
}

/// What a `Tick` does outside draining: a recording register gains one
/// measure of length; an armed register starts recording; otherwise nothing
/// changes.
pub open spec fn tick_step(pre: LoopManager, post: LoopManager) -> bool {
    &&& post.loops_view() == pre.loops_view()
    &&& post.mixed() == pre.mixed()
    &&& post.spm() == pre.spm()
    &&& !post.draining()
    &&& match pre.rec_index() {
        Some(i) => {
            if pre.statuses()[i as int] is Recording || pre.statuses()[i as int] is RecordEnd {
                &&& post.lengths() == pre.lengths().update(
                    i as int,
                    (pre.lengths()[i as int] + 1) as usize,
                )
                &&& post.statuses() == pre.statuses()
                &&& post.rec_index() == pre.rec_index()
            } else {
                &&& post.statuses() == pre.statuses().update(i as int, LoopStatus::Recording)
                &&& post.lengths() == pre.lengths()
                &&& post.rec_index() == pre.rec_index()
            }
        },
        None => {
            &&& post.statuses() == pre.statuses()
            &&& post.lengths() == pre.lengths()
            &&& post.rec_index() == pre.rec_index()
        },
    }
}

/// What the `Tick` that closes a drained recording does: the measure's mix
/// is completed on top of what the `PreTick` already pushed, and every
/// active loop advances to its next measure.
pub open spec fn finish_step(pre: LoopManager, post: LoopManager) -> bool {
    let active = spec_active(pre.statuses());
    &&& post.loops_view() == pre.loops_view()
    &&& post.lengths() == pre.lengths()
    &&& post.rec_index() is None
    &&& !post.draining()
    &&& post.spm() == pre.spm()
    &&& post.statuses() == advance_all(pre.statuses(), pre.lengths(), active)
    &&& post.mixed().len() == pre.drain_base().len() + pre.spm()
    &&& post.mixed().subrange(0, pre.drain_base().len() as int) == pre.drain_base()
    &&& forall|p: int|
        0 <= p < pre.spm() ==> #[trigger] post.mixed()[pre.drain_base().len() + p] == mix_sample(
            pre.loops_view(),
            active,
            pre.spm(),
            p as nat,
        )
}

/// What a `PreTick` does when no recording is pending: one full measure of
/// the active loops' mix is pushed, and every active loop advances.
pub open spec fn pretick_mix_step(pre: LoopManager, post: LoopManager) -> bool {
    let active = spec_active(pre.statuses());
    &&& post.loops_view() == pre.loops_view()
    &&& post.lengths() == pre.lengths()
    &&& post.rec_index() == pre.rec_index()
    &&& !post.draining()
    &&& post.spm() == pre.spm()
    &&& post.statuses() == advance_all(pre.statuses(), pre.lengths(), active)
    &&& post.mixed().len() == pre.mixed().len() + pre.spm()
    &&& post.mixed().subrange(0, pre.mixed().len() as int) == pre.mixed()
    &&& forall|p: int|
        0 <= p < pre.spm() ==> #[trigger] post.mixed()[pre.mixed().len() + p] == mix_sample(
            pre.loops_view(),
            active,
            pre.spm(),
            p as nat,
        )
}

/// What a `PreTick` does when a recording is pending completion: the
/// recording register becomes a one-measure-longer `On(0)` loop, the first
/// half of the measure's mix (the part already recorded) is pushed, and the
/// engine starts draining the rest.
pub open spec fn pretick_handoff_step(pre: LoopManager, post: LoopManager) -> bool {
    match pre.rec_index() {
        Some(i) => {
            let status1 = pre.statuses().update(i as int, LoopStatus::On(0usize));
            let active = spec_active(status1);
            &&& post.statuses() == status1
            &&& post.lengths() == pre.lengths().update(
                i as int,
                (pre.lengths()[i as int] + 1) as usize,
            )
            &&& post.rec_index() is None
            &&& post.draining()
            &&& post.drain_target() == i
            &&& post.drain_base() == pre.mixed()
            &&& post.loops_view() == pre.loops_view()
            &&& post.spm() == pre.spm()
            &&& post.mixed().len() == pre.mixed().len() + pre.spm() / 2 + 1
            &&& post.mixed().subrange(0, pre.mixed().len() as int) == pre.mixed()
            &&& forall|p: int|
                0 <= p <= pre.spm() / 2 ==> #[trigger] post.mixed()[pre.mixed().len() + p]
                    == mix_sample(pre.loops_view(), active, pre.spm(), p as nat)
        },
        None => false,
    }
}

/// Whether a `PreTick` finds a recording pending completion.
pub open spec fn pending_finish(pre: LoopManager) -> bool {
    match pre.rec_index() {
        Some(i) => pre.statuses()[i as int] is RecordEnd,
        None => false,
    }
}

/// The register whose recording is pending completion.
pub open spec fn pending_index(pre: LoopManager) -> int
    recommends
        pending_finish(pre),
{
    match pre.rec_index() {
        Some(i) => i as int,
        None => 0,
    }
}

/// A recording pending completion of which less than half its final measure
/// has arrived: the mix-ahead step cannot serve it and must fail.
pub open spec fn drained_too_short(pre: LoopManager) -> bool {
    pending_finish(pre) && pre.loop_at(pending_index(pre)).len() <= pre.spm() / 2
}

/// A recording pending completion whose measure count cannot grow further.
pub open spec fn drained_over_length(pre: LoopManager) -> bool {
    pending_finish(pre) && !drained_too_short(pre) && pre.lengths()[pending_index(pre)]
        == usize::MAX
}

/// A recording register whose measure count cannot grow at the boundary.
pub open spec fn tick_over_length(pre: LoopManager) -> bool {
    match pre.rec_index() {
        Some(i) => (pre.statuses()[i as int] is Recording || pre.statuses()[i as int]
            is RecordEnd) && pre.lengths()[i as int] == usize::MAX,
        None => false,
    }
}

/// A drained recording that does not close on its measure boundary.
pub open spec fn drain_off_boundary(pre: LoopManager) -> bool {
    pre.loop_at(pre.drain_target()).len() != pre.lengths()[pre.drain_target()] * pre.spm()
}

/// The dispatch table of the engine's event loop: what one clock event does
/// to the register file, by event and by the engine's mode.
pub open spec fn event_step(pre: LoopManager, post: LoopManager, event: Sample) -> bool {
    match event {
        Sample::Data(x) => data_step(pre, post, x),
        Sample::Tick => if pre.draining() {
            finish_step(pre, post)
        } else {
            tick_step(pre, post)
        },
        Sample::PreTick => if pending_finish(pre) {
            pretick_handoff_step(pre, post)
        } else {
            pretick_mix_step(pre, post)
        },
    }
}

/// Two engines with the same registers, states, lengths, bookkeeping, and
/// mixed history; only the queue endpoints may differ.
pub open spec fn same_engine_state(a: LoopManager, b: LoopManager) -> bool {
    &&& b.loops_view() == a.loops_view()
    &&& b.statuses() == a.statuses()
    &&& b.lengths() == a.lengths()
    &&& b.mixed() == a.mixed()
    &&& b.rec_index() == a.rec_index()
    &&& b.draining() == a.draining()
    &&& b.spm() == a.spm()
    &&& (a.draining() ==> b.drain_target() == a.drain_target() && b.drain_base()
        == a.drain_base())
}

/// One turn of the engine's loop, as reported: the popped event, if any,
/// was dispatched once per the event table; then, unless a recording is
/// draining, at most one command was applied; an idle turn leaves the
/// registers untouched.
pub open spec fn run_step(pre: LoopManager, post: LoopManager, rep: RunReport) -> bool {
    &&& post.wf()
    &&& post.spm() == pre.spm()
    &&& match rep.event {
        None => match rep.message {
            None => same_engine_state(pre, post),
            Some(m) => message_step(pre, post, m, rep.notice),
        },
        Some(ev) => exists|mid: LoopManager|
            {
                &&& #[trigger] event_step(pre, mid, ev)
                &&& mid.wf()
                &&& match rep.message {
                    Some(m) => message_step(mid, post, m, rep.notice),
                    None => post == mid,
                }
            },
    }
}

/// Records, stores, activates, deactivates, and mixes loops.
pub struct LoopManager {
    /// Each register's audio, raw fixed-point samples.
    loops: Vec<Vec<i64>>,
    /// Each register's length in measures.
    lengths: Vec<usize>,
    /// Each register's state.
    status: Vec<LoopStatus>,
    /// Producer half of the mixed-audio channel to the playback stage.
    playback: ringbuf::Producer<i64>,
    /// Consumer half of the clocked sample stream from the playback stage.
    stream: ringbuf::Consumer<Sample>,
    /// Samples in one measure; fixed for the session.
    samples_per_measure: usize,
    /// Queue of loop commands from the control surface.
    loop_message_receiver: std::sync::mpsc::Receiver<LoopMessage>,
    /// The register currently armed, recording, or wrapping up, if any.
    /// The statuses remain the source of truth; this is a cached lookup.
    recording_index: Option<usize>,
    /// Whether a pending recording's final measure is being drained.
    mode: Mode,
    /// Every mixed sample pushed to the playback stage so far.
    mixed: Ghost<Seq<i64>>,
}

impl LoopManager {
    /// The audio of register `i`.
    pub closed spec fn loop_at(self, i: int) -> Seq<i64> {
        self.loops@[i]@
    }

    /// All registers' audio.
    pub closed spec fn loops_view(self) -> Seq<Seq<i64>> {
        Seq::new(self.loops@.len() as nat, |i: int| self.loops@[i]@)
    }

    /// All registers' states.
    pub closed spec fn statuses(self) -> Seq<LoopStatus> {
        self.status@
    }

    /// All registers' lengths in measures.
    pub closed spec fn lengths(self) -> Seq<usize> {
        self.lengths@
    }

    /// Samples per measure.
    pub closed spec fn spm(self) -> nat {
        self.samples_per_measure as nat
    }

    /// Every mixed sample pushed to the playback stage so far.
    pub closed spec fn mixed(self) -> Seq<i64> {
        self.mixed@
    }

    /// The register currently armed, recording, or wrapping up.
    pub closed spec fn rec_index(self) -> Option<usize> {
        self.recording_index
    }

    /// Whether a pending recording's final measure is being drained.
    pub closed spec fn draining(self) -> bool {
        self.mode is Draining
    }

    /// While draining: the register whose recording is being finished.
    pub closed spec fn drain_target(self) -> int {
        self.mode->Draining_index as int
    }

    /// While draining: the mixed history as it stood when this measure's
    /// mix began.
    pub closed spec fn drain_base(self) -> Seq<i64> {
        self.mode->Draining_base@
    }

    /// How many samples the mixed-audio queue to the playback stage was
    /// created to hold.
    pub closed spec fn mix_capacity(self) -> nat {
        audio_queue_capacity(self.playback)
    }

    /// Constraints on one register's stored audio given its state: a loop
    /// that plays or is switched off holds whole measures, an untouched or
    /// merely armed register holds nothing.  The register being drained is
    /// exempt until its final measure closes.
    pub open spec fn slot_ok(self, i: int) -> bool {
        match self.statuses()[i] {
            LoopStatus::Empty => self.lengths()[i] == 0 && self.loop_at(i).len() == 0,
            LoopStatus::RecordStart => self.lengths()[i] == 0 && self.loop_at(i).len() == 0,
            LoopStatus::Off => self.lengths()[i] >= 1 && self.loop_at(i).len() == self.lengths()[i]
                * self.spm(),
            LoopStatus::On(x) => x < self.lengths()[i] && ((self.draining() && self.drain_target()
                == i) || self.loop_at(i).len() == self.lengths()[i] * self.spm()),
            LoopStatus::Recording => true,
            LoopStatus::RecordEnd => true,
        }
    }

    /// The cached recording index agrees with the statuses: it names the
    /// single register in a recording state, or none exists.
    pub open spec fn rec_ok(self) -> bool {
        match self.rec_index() {
            Some(i) => i < NUM_LOOPS && recording_status(self.statuses()[i as int]) && forall|
                j: int,
            |
                0 <= j < NUM_LOOPS && j != i ==> !recording_status(#[trigger] self.statuses()[j]),
            None => forall|j: int|
                0 <= j < NUM_LOOPS ==> !recording_status(#[trigger] self.statuses()[j]),
        }
    }

    /// While draining, the drained register is a one-measure-short `On(0)`
    /// loop, nothing is marked recording, and the first half of the measure's
    /// mix is already in the mixed history, computed over the current
    /// registers and the currently active set.
    pub open spec fn mode_ok(self) -> bool {
        self.draining() ==> {
            let i = self.drain_target();
            &&& 0 <= i < NUM_LOOPS
            &&& self.statuses()[i] == LoopStatus::On(0usize)
            &&& self.lengths()[i] >= 1
            &&& self.rec_index() is None
            &&& self.loop_at(i).len() > self.spm() / 2
            &&& self.mixed().len() == self.drain_base().len() + self.spm() / 2 + 1
            &&& self.mixed().subrange(0, self.drain_base().len() as int) == self.drain_base()
            &&& forall|p: int|
                0 <= p <= self.spm() / 2 ==> #[trigger] self.mixed()[self.drain_base().len() + p]
                    == mix_sample(self.loops_view(), spec_active(self.statuses()), self.spm(), p as nat)
        }
    }

    /// The engine's invariant.
    pub open spec fn wf(self) -> bool {
        &&& self.loops_view().len() == NUM_LOOPS
        &&& self.statuses().len() == NUM_LOOPS
        &&& self.lengths().len() == NUM_LOOPS
        &&& self.spm() >= 2
        &&& forall|i: int, k: int|
            0 <= i < NUM_LOOPS && 0 <= k < self.loop_at(i).len() ==> sample_ok(
                #[trigger] self.loop_at(i)[k],
            )
        &&& forall|i: int| 0 <= i < NUM_LOOPS ==> self.slot_ok(i)
        &&& self.rec_ok()
        &&& self.mode_ok()
    }

    /// The register's state, for callers and tests.
    pub fn loop_status(&self, index: usize) -> (r: LoopStatus)
        requires
            self.wf(),
            index < NUM_LOOPS,
        ensures
            r == self.statuses()[index as int],
    {
        self.status[index]
    }

    /// The register's length in measures.
    pub fn loop_length(&self, index: usize) -> (r: usize)
        requires
            self.wf(),
            index < NUM_LOOPS,
        ensures
            r == self.lengths()[index as int],
    {
        self.lengths[index]
    }

    /// The register's recorded audio.
    pub fn loop_samples(&self, index: usize) -> (r: &Vec<i64>)
        requires
            self.wf(),
            index < NUM_LOOPS,
        ensures
            r@ == self.loop_at(index as int),
    {
        &self.loops[index]
    }

    /// The register currently armed, recording, or wrapping up, if any.
    pub fn recording_at(&self) -> (r: Option<usize>)
        ensures
            r == self.rec_index(),
    {
        self.recording_index
    }

    /// Whether the engine is draining a pending recording's final measure.
    pub fn is_draining(&self) -> (r: bool)
        ensures
            r == self.draining(),
    {
        match &self.mode {
            Mode::Normal => false,
            Mode::Draining { .. } => true,
        }
    }

    /// Collects the loops a `PreTick` mixes, in register order.
    fn collect_active(&self) -> (r: Vec<(usize, usize)>)
        requires
            self.statuses().len() == NUM_LOOPS,
        ensures
            r@ == spec_active(self.statuses()),
            r@.len() <= NUM_LOOPS,
    {
        let mut r: Vec<(usize, usize)> = Vec::new();
        let mut i: usize = 0;
        while i < NUM_LOOPS
            invariant
                i <= NUM_LOOPS,
                self.statuses().len() == NUM_LOOPS,
                r@ == spec_active(self.statuses().subrange(0, i as int)),
                r@.len() <= i,
            decreases NUM_LOOPS - i,
        {
            match self.status[i] {
                LoopStatus::On(x) => {
                    r.push((x, i));
                },
                LoopStatus::RecordEnd => {
                    r.push((0, i));
                },
                _ => {},
            }
            proof {
                assert(self.statuses().subrange(0, i + 1).drop_last() =~= self.statuses().subrange(
                    0,
                    i as int,
                ));
            }
            i = i + 1;
        }
        proof {
            assert(self.statuses().subrange(0, NUM_LOOPS as int) =~= self.statuses());
        }
        r
    }

    /// Every entry of `active` can be read at positions up to `upto` of its
    /// register's audio.
    pub open spec fn entries_readable(self, active: Seq<(usize, usize)>, upto: nat) -> bool {
        forall|k: int|
            0 <= k < active.len() ==> {
                let e = #[trigger] active[k];
                &&& e.1 < NUM_LOOPS
                &&& e.0 * self.spm() + upto <= self.loop_at(e.1 as int).len()
            }
    }

    /// The mixed sample at position `pos` of the coming measure: the sum of
    /// every active loop's sample there.
    fn mix_at(&self, active: &Vec<(usize, usize)>, pos: usize) -> (s: i64)
        requires
            self.wf(),
            active@.len() <= NUM_LOOPS,
            self.entries_readable(active@, pos as nat + 1),
        ensures
            s == mix_sample(self.loops_view(), active@, self.spm(), pos as nat),
            -MIX_LIMIT <= s <= MIX_LIMIT,
    {
        let mut acc: i64 = 0;
        let mut k: usize = 0;
        while k < active.len()
            invariant
                self.wf(),
                k <= active@.len(),
                active@.len() <= NUM_LOOPS,
                self.entries_readable(active@, pos as nat + 1),
                acc == mix_sample(self.loops_view(), active@.subrange(0, k as int), self.spm(), pos as nat),
                -(k as int) * SAMPLE_LIMIT <= acc <= (k as int) * SAMPLE_LIMIT,
            decreases active@.len() - k,
        {
            let (off, j) = active[k];
            proof {
                let e = active@[k as int];
                assert(e == (off, j));
                assert(e.0 * self.spm() + (pos as nat + 1) <= self.loop_at(e.1 as int).len());
            }
            let len_j = self.loops[j].len();
            proof {
                assert(self.loop_at(j as int).len() == len_j);
                assert(off * self.spm() + pos < len_j);
            }
            let v = self.loops[j][off * self.samples_per_measure + pos];
            proof {
                assert(active@.subrange(0, k + 1).drop_last() =~= active@.subrange(0, k as int));
                assert(active@.subrange(0, k + 1).last() == active@[k as int]);
                assert(self.loops_view()[j as int] == self.loops@[j as int]@);
                assert(sample_ok(v));
            }
            acc = acc + v;
            k = k + 1;
        }
        proof {
            assert(active@.subrange(0, active@.len() as int) =~= active@);
        }
        acc
    }

    /// Pushes the mixed samples for positions `from..to` of the coming
    /// measure to the playback stage, one at a time, recording them in the
    /// mixed history.
    fn push_mix_range(&mut self, active: &Vec<(usize, usize)>, from: usize, to: usize) -> (r:
        Result<(), LoopError>)
        requires
            old(self).wf(),
            !old(self).draining(),
            active@.len() <= NUM_LOOPS,
            from <= to <= old(self).spm(),
            old(self).entries_readable(active@, to as nat),
        ensures
            final(self).wf(),
            !final(self).draining(),
            final(self).loops_view() == old(self).loops_view(),
            final(self).statuses() == old(self).statuses(),
            final(self).lengths() == old(self).lengths(),
            final(self).rec_index() == old(self).rec_index(),
            final(self).spm() == old(self).spm(),
            final(self).mix_capacity() == old(self).mix_capacity(),
            final(self).mixed().len() >= old(self).mixed().len(),
            final(self).mixed().subrange(0, old(self).mixed().len() as int) == old(self).mixed(),
            r is Ok ==> {
                &&& final(self).mixed().len() == old(self).mixed().len() + (to - from)
                &&& forall|q: int|
                    0 <= q < to - from ==> #[trigger] final(self).mixed()[old(self).mixed().len()
                        + q] == mix_sample(
                        old(self).loops_view(),
                        active@,
                        old(self).spm(),
                        (from + q) as nat,
                    )
            },
            r is Err ==> r == Err::<(), LoopError>(LoopError::PlaybackFull),
    {
        let ghost base = self.mixed@;
        let mut p = from;
        while p < to
            invariant
                self.wf(),
                !self.draining(),
                from <= p <= to <= self.spm(),
                active@.len() <= NUM_LOOPS,
                self.entries_readable(active@, to as nat),
                self.loops_view() == old(self).loops_view(),
                self.statuses() == old(self).statuses(),
                self.lengths() == old(self).lengths(),
                self.rec_index() == old(self).rec_index(),
                self.spm() == old(self).spm(),
                self.mix_capacity() == old(self).mix_capacity(),
                base == old(self).mixed(),
                self.mixed@.len() == base.len() + (p - from),
                self.mixed@.subrange(0, base.len() as int) == base,
                forall|q: int|
                    0 <= q < p - from ==> #[trigger] self.mixed@[base.len() + q] == mix_sample(
                        self.loops_view(),
                        active@,
                        self.spm(),
                        (from + q) as nat,
                    ),
            decreases to - p,
        {
            proof {
                assert forall|k: int| 0 <= k < active@.len() implies {
                    let e = #[trigger] active@[k];
                    &&& e.1 < NUM_LOOPS
                    &&& e.0 * self.spm() + (p as nat + 1) <= self.loop_at(e.1 as int).len()
                } by {
                    assert(active@[k].0 * self.spm() + (to as nat) <= self.loop_at(
                        active@[k].1 as int,
                    ).len());
                }
            }
            let ghost pre = *self;
            let s = self.mix_at(active, p);
            match audio_push(&mut self.playback, s) {
                Ok(()) => {},
                Err(_) => {
                    proof {
                        assert(self.mixed@.subrange(0, base.len() as int) =~= base);
                        lemma_wf_same_registers(pre, *self);
                    }
                    return Err(LoopError::PlaybackFull);
                },
            }
            self.mixed = Ghost(self.mixed@.push(s));
            proof {
                assert(self.mixed@.subrange(0, base.len() as int) =~= base);
                lemma_wf_same_registers(pre, *self);
            }
            p = p + 1;
        }
        Ok(())
    }

    /// Advances every loop of the active set to its next measure.
    fn advance_active(&mut self, active: &Vec<(usize, usize)>)
        requires
            old(self).wf(),
            !old(self).draining(),
            forall|k: int|
                0 <= k < active@.len() ==> (#[trigger] active@[k]).1 < NUM_LOOPS && old(
                    self,
                ).statuses()[active@[k].1 as int] is On,
        ensures
            final(self).wf(),
            !final(self).draining(),
            final(self).loops_view() == old(self).loops_view(),
            final(self).lengths() == old(self).lengths(),
            final(self).rec_index() == old(self).rec_index(),
            final(self).spm() == old(self).spm(),
            final(self).mixed() == old(self).mixed(),
            final(self).statuses() == advance_all(old(self).statuses(), old(self).lengths(), active@),
    {
        let mut k: usize = 0;
        while k < active.len()
            invariant
                self.wf(),
                !self.draining(),
                k <= active@.len(),
                forall|m: int|
                    0 <= m < active@.len() ==> (#[trigger] active@[m]).1 < NUM_LOOPS && old(
                        self,
                    ).statuses()[active@[m].1 as int] is On,
                forall|i: int|
                    0 <= i < NUM_LOOPS ==> ((#[trigger] self.statuses()[i]) is On <==> old(
                        self,
                    ).statuses()[i] is On),
                forall|i: int|
                    0 <= i < NUM_LOOPS && !(old(self).statuses()[i] is On)
                        ==> #[trigger] self.statuses()[i] == old(self).statuses()[i],
                self.loops_view() == old(self).loops_view(),
                self.lengths() == old(self).lengths(),
                self.rec_index() == old(self).rec_index(),
                self.spm() == old(self).spm(),
                self.mixed() == old(self).mixed(),
                self.statuses() == advance_all(
                    old(self).statuses(),
                    old(self).lengths(),
                    active@.subrange(0, k as int),
                ),
            decreases active@.len() - k,
        {
            let ghost pre = *self;
            let (_off, j) = active[k];
            let mut st = self.status[j];
            let len_j = self.lengths[j];
            proof {
                assert(self.statuses()[j as int] is On);
                assert(self.slot_ok(j as int));
            }
            st.increment(len_j);
            self.status[j] = st;
            proof {
                assert(active@.subrange(0, k + 1).drop_last() =~= active@.subrange(0, k as int));
                assert(active@.subrange(0, k + 1).last() == active@[k as int]);
                assert(self.statuses() =~= pre.statuses().update(
                    j as int,
                    advance_status(pre.statuses()[j as int], pre.lengths()[j as int]),
                ));
                assert forall|i: int| 0 <= i < NUM_LOOPS implies self.slot_ok(i) by {
                    assert(pre.slot_ok(i));
                    assert(self.loop_at(i) == pre.loop_at(i));
                }
                assert forall|i: int, kk: int|
                    0 <= i < NUM_LOOPS && 0 <= kk < self.loop_at(i).len() implies sample_ok(
                    #[trigger] self.loop_at(i)[kk],
                ) by {
                    assert(self.loop_at(i) == pre.loop_at(i));
                    assert(sample_ok(pre.loop_at(i)[kk]));
                }
                assert forall|i: int|
                    0 <= i < NUM_LOOPS implies (recording_status(#[trigger] self.statuses()[i])
                    == recording_status(pre.statuses()[i])) by {}
                assert(self.rec_ok());
            }
            k = k + 1;
        }
        proof {
            assert(active@.subrange(0, active@.len() as int) =~= active@);
        }
    }

    /// One incoming audio sample: appended to the loop being recorded or
    /// drained, a no-op otherwise.
    fn handle_data(&mut self, x: i64) -> (r: Result<(), LoopError>)
        requires
            old(self).wf(),
        ensures
            r is Ok ==> final(self).wf() && data_step(*old(self), *final(self), x),
            r is Err <==> (data_target(*old(self)) is Some && !sample_ok(x)),
            r is Err ==> r == Err::<(), LoopError>(LoopError::SampleOutOfRange) && *final(self)
                == *old(self),
    {
        let target: Option<usize> = match &self.mode {
            Mode::Draining { index, .. } => Some(*index),
            Mode::Normal => {
                match self.recording_index {
                    Some(i) => {
                        match self.status[i] {
                            LoopStatus::Recording => Some(i),
                            LoopStatus::RecordEnd => Some(i),
                            _ => None,
                        }
                    },
                    None => None,
                }
            },
        };
        proof {
            assert(target == data_target(*old(self)));
        }
        match target {
            None => Ok(()),
            Some(i) => {
                if x > SAMPLE_LIMIT || x < -SAMPLE_LIMIT {
                    return Err(LoopError::SampleOutOfRange);
                }
                let ghost pre = *self;
                self.loops[i].push(x);
                proof {
                    assert(self.loops_view() =~= pre.loops_view().update(
                        i as int,
                        pre.loop_at(i as int).push(x),
                    ));
                    assert forall|ii: int, kk: int|
                        0 <= ii < NUM_LOOPS && 0 <= kk < self.loop_at(ii).len() implies sample_ok(
                        #[trigger] self.loop_at(ii)[kk],
                    ) by {
                        if ii == i && kk == self.loop_at(ii).len() - 1 {
                        } else {
                            assert(sample_ok(pre.loop_at(ii)[kk]));
                        }
                    }
                    assert forall|ii: int| 0 <= ii < NUM_LOOPS implies self.slot_ok(ii) by {
                        assert(pre.slot_ok(ii));
                        if ii != i {
                            assert(self.loop_at(ii) == pre.loop_at(ii));
                        }
                    }
                    if pre.draining() {
                        lemma_spec_active_entries(pre.statuses());
                        assert(self.loops_view()[i as int].subrange(
                            0,
                            pre.loops_view()[i as int].len() as int,
                        ) =~= pre.loops_view()[i as int]);
                        assert forall|p: int|
                            0 <= p <= self.spm() / 2 implies #[trigger] self.mixed()[
                            self.drain_base().len() + p] == mix_sample(
                            self.loops_view(),
                            spec_active(self.statuses()),
                            self.spm(),
                            p as nat,
                        ) by {
                            assert forall|k: int|
                                0 <= k < spec_active(pre.statuses()).len() implies {
                                let e = #[trigger] spec_active(pre.statuses())[k];
                                &&& e.1 < pre.loops_view().len()
                                &&& (e.1 == i ==> e.0 * pre.spm() + p < pre.loop_at(i as int).len())
                            } by {
                                let e = spec_active(pre.statuses())[k];
                                assert(pre.statuses()[e.1 as int] == LoopStatus::On(e.0) || (
                                pre.statuses()[e.1 as int] == LoopStatus::RecordEnd && e.0 == 0));
                                if e.1 == i {
                                    assert(i == pre.drain_target());
                                    assert(pre.statuses()[i as int] == LoopStatus::On(0usize));
                                    assert(e.0 == 0);
                                    assert(pre.loop_at(i as int).len() > pre.spm() / 2);
                                    assert(p <= pre.spm() / 2);
                                }
                            }
                            lemma_mix_stable_under_append(
                                pre.loops_view(),
                                self.loops_view(),
                                spec_active(pre.statuses()),
                                pre.spm(),
                                p as nat,
                                i as int,
                            );
                            assert(pre.mixed()[pre.drain_base().len() + p] == mix_sample(
                                pre.loops_view(),
                                spec_active(pre.statuses()),
                                pre.spm(),
                                p as nat,
                            ));
                        }
                    }
                    assert(self.rec_ok()) by {
                        assert(self.statuses() == pre.statuses());
                    }
                }
                Ok(())
            },
        }
    }

    /// A measure boundary outside draining: a recording register gains one
    /// measure of length; an armed register starts recording.
    fn handle_tick_normal(&mut self) -> (r: Result<(), LoopError>)
        requires
            old(self).wf(),
            !old(self).draining(),
        ensures
            r is Ok ==> final(self).wf() && tick_step(*old(self), *final(self)),
            r is Err <==> (match old(self).rec_index() {
                Some(i) => (old(self).statuses()[i as int] is Recording
                    || old(self).statuses()[i as int] is RecordEnd) && old(self).lengths()[i as int]
                    == usize::MAX,
                None => false,
            }),
            r is Err ==> r == Err::<(), LoopError>(LoopError::LengthOverflow) && *final(self)
                == *old(self),
    {
        let ghost pre = *self;
        match self.recording_index {
            None => Ok(()),
            Some(i) => {
                let st = self.status[i];
                match st {
                    LoopStatus::Recording | LoopStatus::RecordEnd => {
                        if self.lengths[i] == usize::MAX {
                            return Err(LoopError::LengthOverflow);
                        }
                        let grown = self.lengths[i] + 1;
                        self.lengths[i] = grown;
                        proof {
                            assert(self.lengths@ =~= pre.lengths().update(i as int, grown));
                            assert forall|ii: int| 0 <= ii < NUM_LOOPS implies self.slot_ok(ii) by {
                                assert(pre.slot_ok(ii));
                                assert(self.loop_at(ii) == pre.loop_at(ii));
                            }
                            assert forall|ii: int, kk: int|
                                0 <= ii < NUM_LOOPS && 0 <= kk < self.loop_at(ii).len()
                                implies sample_ok(#[trigger] self.loop_at(ii)[kk]) by {
                                assert(sample_ok(pre.loop_at(ii)[kk]));
                            }
                        }
                        Ok(())
                    },
                    LoopStatus::RecordStart => {
                        self.status[i] = LoopStatus::Recording;
                        proof {
                            assert(self.statuses() =~= pre.statuses().update(
                                i as int,
                                LoopStatus::Recording,
                            ));
                            assert forall|ii: int| 0 <= ii < NUM_LOOPS implies self.slot_ok(ii) by {
                                assert(pre.slot_ok(ii));
                                assert(self.loop_at(ii) == pre.loop_at(ii));
                            }
                            assert forall|ii: int, kk: int|
                                0 <= ii < NUM_LOOPS && 0 <= kk < self.loop_at(ii).len()
                                implies sample_ok(#[trigger] self.loop_at(ii)[kk]) by {
                                assert(sample_ok(pre.loop_at(ii)[kk]));
                            }
                            assert(self.rec_ok()) by {
                                assert forall|j: int|
                                    0 <= j < NUM_LOOPS && j != i implies !recording_status(
                                    #[trigger] self.statuses()[j],
                                ) by {
                                    assert(!recording_status(pre.statuses()[j]));
                                }
                            }
                        }
                        Ok(())
                    },
                    _ => {
                        proof {
                            assert(recording_status(pre.statuses()[i as int]));
                            assert(false);
                        }
                        Ok(())
                    },
                }
            },
        }
    }

    /// The `Tick` that closes a drained recording's final measure: checks
    /// the measure boundary, pushes the second half of the measure's mix,
    /// and advances every active loop.
    fn finish_recording(&mut self) -> (r: Result<(), LoopError>)
        requires
            old(self).wf(),
            old(self).draining(),
        ensures
            r is Ok ==> final(self).wf() && finish_step(*old(self), *final(self)),
            (old(self).loop_at(old(self).drain_target()).len() != old(self).lengths()[old(
                self,
            ).drain_target()] * old(self).spm()) <==> r == Err::<(), LoopError>(
                LoopError::MeasureMismatch,
            ),
            r is Err ==> r == Err::<(), LoopError>(LoopError::MeasureMismatch) || r == Err::<
                (),
                LoopError,
            >(LoopError::PlaybackFull),
    {
        let idx = match &self.mode {
            Mode::Draining { index, .. } => *index,
            Mode::Normal => {
                proof {
                    assert(false);
                }
                0
            },
        };
        let ghost pre = *self;
        let spm = self.samples_per_measure;
        let len = self.loops[idx].len();
        let measures = self.lengths[idx];
        proof {
            let l = len as int;
            let m = spm as int;
            if l == (measures as int) * m {
                assert((measures as int) * m == m * (measures as int)) by (nonlinear_arith);
                lemma_fundamental_div_mod_converse(l, m, measures as int, 0);
            }
        }
        if len % spm != 0 || len / spm != measures {
            return Err(LoopError::MeasureMismatch);
        }
        proof {
            let l = len as int;
            let m = spm as int;
            lemma_fundamental_div_mod(l, m);
            assert(m * (l / m) == (l / m) * m) by (nonlinear_arith);
            assert(len == pre.lengths()[idx as int] * pre.spm());
        }
        self.mode = Mode::Normal;
        proof {
            assert forall|ii: int| 0 <= ii < NUM_LOOPS implies self.slot_ok(ii) by {
                assert(pre.slot_ok(ii));
                assert(self.loop_at(ii) == pre.loop_at(ii));
            }
            assert forall|ii: int, kk: int|
                0 <= ii < NUM_LOOPS && 0 <= kk < self.loop_at(ii).len() implies sample_ok(
                #[trigger] self.loop_at(ii)[kk],
            ) by {
                assert(sample_ok(pre.loop_at(ii)[kk]));
            }
            assert(self.wf());
        }
        let active = self.collect_active();
        proof {
            lemma_spec_active_entries(self.statuses());
            assert forall|k: int| 0 <= k < active@.len() implies {
                let e = #[trigger] active@[k];
                &&& e.1 < NUM_LOOPS
                &&& self.statuses()[e.1 as int] is On
                &&& e.0 * self.spm() + self.spm() <= self.loop_at(e.1 as int).len()
            } by {
                let e = active@[k];
                if self.statuses()[e.1 as int] == LoopStatus::RecordEnd {
                    assert(recording_status(self.statuses()[e.1 as int]));
                    assert(false);
                }
                assert(self.statuses()[e.1 as int] == LoopStatus::On(e.0));
                assert(self.slot_ok(e.1 as int));
                lemma_mul_inequality(
                    e.0 as int + 1,
                    self.lengths()[e.1 as int] as int,
                    self.spm() as int,
                );
                assert((e.0 + 1) * self.spm() == e.0 * self.spm() + self.spm())
                    by (nonlinear_arith);
            }
        }
        let half = spm / 2;
        let ghost mid0 = *self;
        match self.push_mix_range(&active, half + 1, spm) {
            Ok(()) => {},
            Err(e) => {
                return Err(e);
            },
        }
        let ghost mid = *self;
        self.advance_active(&active);
        proof {
            let base = pre.drain_base();
            let act = spec_active(pre.statuses());
            assert(active@ == act);
            assert(pre.mixed().len() == base.len() + pre.spm() / 2 + 1);
            assert(self.mixed() == mid.mixed());
            assert(self.mixed().len() == base.len() + pre.spm());
            assert forall|q: int|
                0 <= q < pre.mixed().len() implies self.mixed()[q] == pre.mixed()[q] by {
                assert(mid.mixed().subrange(0, pre.mixed().len() as int)[q] == mid.mixed()[q]);
            }
            assert(self.mixed().subrange(0, base.len() as int) =~= base) by {
                assert forall|q: int| 0 <= q < base.len() implies self.mixed().subrange(
                    0,
                    base.len() as int,
                )[q] == base[q] by {
                    assert(pre.mixed().subrange(0, base.len() as int)[q] == pre.mixed()[q]);
                }
            }
            assert forall|p: int|
                0 <= p < pre.spm() implies #[trigger] self.mixed()[base.len() + p] == mix_sample(
                pre.loops_view(),
                act,
                pre.spm(),
                p as nat,
            ) by {
                if p <= pre.spm() / 2 {
                    assert(pre.mixed()[base.len() + p] == mix_sample(
                        pre.loops_view(),
                        act,
                        pre.spm(),
                        p as nat,
                    ));
                } else {
                    let q = p - (pre.spm() / 2 + 1);
                    assert(mid.mixed()[pre.mixed().len() + q] == mix_sample(
                        mid0.loops_view(),
                        active@,
                        mid0.spm(),
                        (half + 1 + q) as nat,
                    ));
                }
            }
        }
        Ok(())
    }

    /// The mix-ahead step: on a `PreTick`, push the coming measure's mix.
    /// With no recording pending the whole measure goes out and the active
    /// loops advance; with one pending, the recorded half goes out and the
    /// engine starts draining the rest.
    fn handle_pretick(&mut self) -> (r: Result<(), LoopError>)
        requires
            old(self).wf(),
        ensures
            old(self).draining() <==> r == Err::<(), LoopError>(LoopError::StreamDesync),
            r is Ok && pending_finish(*old(self)) ==> final(self).wf() && pretick_handoff_step(
                *old(self),
                *final(self),
            ),
            r is Ok && !pending_finish(*old(self)) ==> final(self).wf() && pretick_mix_step(
                *old(self),
                *final(self),
            ),
            !old(self).draining() ==> (drained_too_short(*old(self)) <==> r == Err::<
                (),
                LoopError,
            >(LoopError::RecordingTooShort)),
            !old(self).draining() ==> (drained_over_length(*old(self)) <==> r == Err::<
                (),
                LoopError,
            >(LoopError::LengthOverflow)),
            r is Err ==> {
                ||| r == Err::<(), LoopError>(LoopError::StreamDesync)
                ||| r == Err::<(), LoopError>(LoopError::RecordingTooShort)
                ||| r == Err::<(), LoopError>(LoopError::LengthOverflow)
                ||| r == Err::<(), LoopError>(LoopError::PlaybackFull)
            },
    {
        match &self.mode {
            Mode::Draining { .. } => {
                return Err(LoopError::StreamDesync);
            },
            Mode::Normal => {},
        }
        let ghost pre = *self;
        let spm = self.samples_per_measure;
        let pending: Option<usize> = match self.recording_index {
            Some(i) => {
                match self.status[i] {
                    LoopStatus::RecordEnd => Some(i),
                    _ => None,
                }
            },
            None => None,
        };
        match pending {
            None => {
                let active = self.collect_active();
                proof {
                    lemma_spec_active_entries(self.statuses());
                    assert forall|k: int| 0 <= k < active@.len() implies {
                        let e = #[trigger] active@[k];
                        &&& e.1 < NUM_LOOPS
                        &&& self.statuses()[e.1 as int] is On
                        &&& e.0 * self.spm() + self.spm() <= self.loop_at(e.1 as int).len()
                    } by {
                        let e = active@[k];
                        if self.statuses()[e.1 as int] == LoopStatus::RecordEnd {
                            assert(recording_status(self.statuses()[e.1 as int]));
                            assert(false);
                        }
                        assert(self.statuses()[e.1 as int] == LoopStatus::On(e.0));
                        assert(self.slot_ok(e.1 as int));
                        lemma_mul_inequality(
                            e.0 as int + 1,
                            self.lengths()[e.1 as int] as int,
                            self.spm() as int,
                        );
                        assert((e.0 + 1) * self.spm() == e.0 * self.spm() + self.spm())
                            by (nonlinear_arith);
                    }
                }
                match self.push_mix_range(&active, 0, spm) {
                    Ok(()) => {},
                    Err(e) => {
                        return Err(e);
                    },
                }
                self.advance_active(&active);
                Ok(())
            },
            Some(ri) => {
                let half = spm / 2;
                if self.loops[ri].len() <= half {
                    return Err(LoopError::RecordingTooShort);
                }
                if self.lengths[ri] == usize::MAX {
                    return Err(LoopError::LengthOverflow);
                }
                let active = self.collect_active();
                proof {
                    lemma_spec_active_entries(self.statuses());
                    assert forall|k: int| 0 <= k < active@.len() implies {
                        let e = #[trigger] active@[k];
                        &&& e.1 < NUM_LOOPS
                        &&& e.0 * self.spm() + (half + 1) as nat <= self.loop_at(e.1 as int).len()
                    } by {
                        let e = active@[k];
                        if e.1 == ri {
                            assert(self.statuses()[e.1 as int] == LoopStatus::RecordEnd);
                            assert(e.0 == 0);
                        } else {
                            if self.statuses()[e.1 as int] == LoopStatus::RecordEnd {
                                assert(recording_status(self.statuses()[e.1 as int]));
                                assert(false);
                            }
                            assert(self.statuses()[e.1 as int] == LoopStatus::On(e.0));
                            assert(self.slot_ok(e.1 as int));
                            lemma_mul_inequality(
                                e.0 as int + 1,
                                self.lengths()[e.1 as int] as int,
                                self.spm() as int,
                            );
                            assert((e.0 + 1) * self.spm() == e.0 * self.spm() + self.spm())
                                by (nonlinear_arith);
                            assert(half + 1 <= self.spm());
                        }
                    }
                }
                let grown = self.lengths[ri] + 1;
                self.lengths[ri] = grown;
                proof {
                    assert(self.lengths@ =~= pre.lengths().update(ri as int, grown));
                    assert forall|ii: int| 0 <= ii < NUM_LOOPS implies self.slot_ok(ii) by {
                        assert(pre.slot_ok(ii));
                        assert(self.loop_at(ii) == pre.loop_at(ii));
                    }
                    assert forall|ii: int, kk: int|
                        0 <= ii < NUM_LOOPS && 0 <= kk < self.loop_at(ii).len() implies sample_ok(
                        #[trigger] self.loop_at(ii)[kk],
                    ) by {
                        assert(sample_ok(pre.loop_at(ii)[kk]));
                    }
                    assert(self.wf());
                }
                let ghost mid0 = *self;
                match self.push_mix_range(&active, 0, half + 1) {
                    Ok(()) => {},
                    Err(e) => {
                        return Err(e);
                    },
                }
                let ghost mid = *self;
                self.status[ri] = LoopStatus::On(0);
                self.recording_index = None;
                self.mode = Mode::Draining { index: ri, base: Ghost(pre.mixed@) };
                proof {
                    assert(self.statuses() =~= pre.statuses().update(
                        ri as int,
                        LoopStatus::On(0usize),
                    ));
                    lemma_spec_active_update(pre.statuses(), ri as int);
                    assert forall|ii: int| 0 <= ii < NUM_LOOPS implies self.slot_ok(ii) by {
                        assert(mid.slot_ok(ii));
                        assert(self.loop_at(ii) == mid.loop_at(ii));
                    }
                    assert forall|ii: int, kk: int|
                        0 <= ii < NUM_LOOPS && 0 <= kk < self.loop_at(ii).len() implies sample_ok(
                        #[trigger] self.loop_at(ii)[kk],
                    ) by {
                        assert(sample_ok(mid.loop_at(ii)[kk]));
                    }
                    assert(self.rec_ok()) by {
                        assert forall|j: int|
                            0 <= j < NUM_LOOPS implies !recording_status(
                            #[trigger] self.statuses()[j],
                        ) by {
                            if j != ri {
                                assert(!recording_status(pre.statuses()[j]));
                            }
                        }
                    }
                    assert(self.mode_ok()) by {
                        assert(spec_active(self.statuses()) == spec_active(pre.statuses()));
                        assert(self.drain_base() == pre.mixed());
                        assert(self.mixed() == mid.mixed());
                        assert(self.mixed().subrange(0, pre.mixed().len() as int) == pre.mixed());
                        assert(half == self.spm() / 2);
                        assert(self.loops_view() == mid.loops_view());
                        assert(mid.loops_view() == mid0.loops_view());
                        assert(mid0.loops_view() == pre.loops_view());
                        assert(self.loop_at(ri as int) == self.loops_view()[ri as int]);
                        assert(pre.loop_at(ri as int) == pre.loops_view()[ri as int]);
                        assert(pre.loop_at(ri as int).len() > half);
                        assert(self.loop_at(ri as int).len() > self.spm() / 2);
                        assert(self.mixed().len() == pre.mixed().len() + half + 1);
                        assert forall|p: int|
                            0 <= p <= self.spm() / 2 implies #[trigger] self.mixed()[
                        self.drain_base().len() + p] == mix_sample(
                            self.loops_view(),
                            spec_active(self.statuses()),
                            self.spm(),
                            p as nat,
                        ) by {
                            assert(mid.mixed()[pre.mixed().len() + p] == mix_sample(
                                mid0.loops_view(),
                                active@,
                                mid0.spm(),
                                (0 + p) as nat,
                            ));
                        }
                    }
                    assert(self.wf());
                }
                Ok(())
            },
        }
    }

    /// Dispatch of one clock-stream event.  `Data` is appended to the loop
    /// being recorded or drained; `Tick` advances the recording bookkeeping
    /// or closes a drained measure; `PreTick` pushes the coming measure's
    /// mix ahead of time.
    pub fn handle_sample(&mut self, event: Sample) -> (r: Result<(), LoopError>)
        requires
            old(self).wf(),
        ensures
            r is Ok ==> final(self).wf() && event_step(*old(self), *final(self), event),
            (event is PreTick && old(self).draining()) <==> r == Err::<(), LoopError>(
                LoopError::StreamDesync,
            ),
            event is Data ==> (r is Err <==> (data_target(*old(self)) is Some
                && !sample_ok(event->0))) && (r is Err ==> r == Err::<(), LoopError>(
                LoopError::SampleOutOfRange,
            )),
            event is Tick && !old(self).draining() ==> (r is Err <==> tick_over_length(
                *old(self),
            )) && (r is Err ==> r == Err::<(), LoopError>(LoopError::LengthOverflow)),
            event is Tick && old(self).draining() ==> (drain_off_boundary(*old(self)) <==> r
                == Err::<(), LoopError>(LoopError::MeasureMismatch)) && (r is Err ==> r == Err::<
                (),
                LoopError,
            >(LoopError::MeasureMismatch) || r == Err::<(), LoopError>(LoopError::PlaybackFull)),
            event is PreTick && !old(self).draining() ==> (drained_too_short(*old(self)) <==> r
                == Err::<(), LoopError>(LoopError::RecordingTooShort)) && (drained_over_length(
                *old(self),
            ) <==> r == Err::<(), LoopError>(LoopError::LengthOverflow)) && (r is Err ==> {
                ||| r == Err::<(), LoopError>(LoopError::RecordingTooShort)
                ||| r == Err::<(), LoopError>(LoopError::LengthOverflow)
                ||| r == Err::<(), LoopError>(LoopError::PlaybackFull)
            }),
    {
        match event {
            Sample::Data(x) => self.handle_data(x),
            Sample::Tick => {
                if self.is_draining() {
                    self.finish_recording()
                } else {
                    self.handle_tick_normal()
                }
            },
            Sample::PreTick => self.handle_pretick(),
        }
    }

    /// Applies one command from the control surface: the toggle/stop table
    /// of the state machine.  A command that cannot be honored is ignored
    /// and reported through the returned notice.
    pub fn apply_message(&mut self, message: LoopMessage) -> (r: Option<LoopNotice>)
        requires
            old(self).wf(),
            !old(self).draining(),
        ensures
            final(self).wf(),
            !final(self).draining(),
            message_step(*old(self), *final(self), message, r),
    {
        let ghost pre = *self;
        match message {
            LoopMessage::ToggleLoop(index) => {
                if index >= NUM_LOOPS {
                    return Some(LoopNotice::InvalidIndex);
                }
                let st = self.status[index];
                match st {
                    LoopStatus::Off => {
                        self.status[index] = LoopStatus::On(0);
                        proof {
                            assert(self.statuses() =~= pre.statuses().update(
                                index as int,
                                LoopStatus::On(0usize),
                            ));
                            assert(pre.slot_ok(index as int));
                            lemma_wf_after_one_status(pre, *self, index as int);
                        }
                        None
                    },
                    LoopStatus::On(_) => {
                        self.status[index] = LoopStatus::Off;
                        proof {
                            assert(self.statuses() =~= pre.statuses().update(
                                index as int,
                                LoopStatus::Off,
                            ));
                            assert(pre.slot_ok(index as int));
                            lemma_wf_after_one_status(pre, *self, index as int);
                        }
                        None
                    },
                    LoopStatus::Empty => {
                        match self.recording_index {
                            Some(other) => Some(LoopNotice::AlreadyRecording(other)),
                            None => {
                                self.status[index] = LoopStatus::RecordStart;
                                self.recording_index = Some(index);
                                proof {
                                    assert(self.statuses() =~= pre.statuses().update(
                                        index as int,
                                        LoopStatus::RecordStart,
                                    ));
                                    assert forall|ii: int|
                                        0 <= ii < NUM_LOOPS implies self.slot_ok(ii) by {
                                        assert(pre.slot_ok(ii));
                                        assert(self.loop_at(ii) == pre.loop_at(ii));
                                    }
                                    assert forall|ii: int, kk: int|
                                        0 <= ii < NUM_LOOPS && 0 <= kk < self.loop_at(ii).len()
                                        implies sample_ok(#[trigger] self.loop_at(ii)[kk]) by {
                                        assert(sample_ok(pre.loop_at(ii)[kk]));
                                    }
                                    assert(self.rec_ok()) by {
                                        assert forall|j: int|
                                            0 <= j < NUM_LOOPS && j != index
                                            implies !recording_status(
                                            #[trigger] self.statuses()[j],
                                        ) by {
                                            assert(!recording_status(pre.statuses()[j]));
                                        }
                                    }
                                }
                                None
                            },
                        }
                    },
                    LoopStatus::Recording => Some(LoopNotice::BusyRecording),
                    LoopStatus::RecordStart => Some(LoopNotice::PendingRecord),
                    LoopStatus::RecordEnd => Some(LoopNotice::PendingFinish),
                }
            },
            LoopMessage::StopRecording => {
                match self.recording_index {
                    Some(i) => {
                        let st = self.status[i];
                        match st {
                            LoopStatus::Recording | LoopStatus::RecordEnd => {
                                self.status[i] = LoopStatus::RecordEnd;
                                proof {
                                    assert(self.statuses() =~= pre.statuses().update(
                                        i as int,
                                        LoopStatus::RecordEnd,
                                    ));
                                    lemma_wf_after_one_status(pre, *self, i as int);
                                }
                                None
                            },
                            _ => Some(LoopNotice::NotRecording),
                        }
                    },
                    None => Some(LoopNotice::NotRecording),
                }
            },
        }
    }

    /// Polls the command queue without blocking and applies the one pending
    /// command, if any; returns what was applied and any notice it raised.
    fn check_messages(&mut self) -> (r: (Option<LoopMessage>, Option<LoopNotice>))
        requires
            old(self).wf(),
            !old(self).draining(),
        ensures
            final(self).wf(),
            !final(self).draining(),
            r.0 is None ==> *final(self) == *old(self) && r.1 is None,
            r.0 matches Some(m) ==> message_step(*old(self), *final(self), m, r.1),
    {
        match poll_receiver(&self.loop_message_receiver) {
            None => (None, None),
            Some(message) => {
                let notice = self.apply_message(message);
                (Some(message), notice)
            },
        }
    }

    /// One turn of the engine's loop: take one clock event from the stream,
    /// if any, and dispatch it per the event table; then, unless a recording
    /// is draining, poll the command queue once.  The report ties what was
    /// seen to what was done (`run_step`).
    pub fn run_iteration(&mut self) -> (r: Result<RunReport, LoopError>)
        requires
            old(self).wf(),
        ensures
            r matches Ok(rep) ==> run_step(*old(self), *final(self), rep),
    {
        let ghost pre = *self;
        let event = channel_pop(&mut self.stream);
        proof {
            lemma_wf_same_engine(pre, *self);
            assert(same_engine_state(pre, *self));
        }
        let ghost popped = *self;
        match event {
            Some(ev) => {
                match self.handle_sample(ev) {
                    Ok(()) => {},
                    Err(e) => {
                        return Err(e);
                    },
                }
                proof {
                    lemma_event_step_same_state(pre, popped, *self, ev);
                }
            },
            None => {},
        }
        let ghost mid = *self;
        if !self.is_draining() {
            let (message, notice) = self.check_messages();
            proof {
                match event {
                    Some(ev) => {
                        assert(event_step(pre, mid, ev));
                        if message is None {
                            assert(*self == mid);
                        }
                    },
                    None => {
                        match message {
                            Some(m) => {
                                assert(message_step(mid, *self, m, notice));
                                lemma_message_step_same_state(pre, mid, *self, m, notice);
                            },
                            None => {
                                assert(*self == mid);
                                assert(same_engine_state(pre, *self));
                            },
                        }
                    },
                }
            }
            Ok(RunReport { event, message, notice })
        } else {
            proof {
                match event {
                    Some(ev) => {
                        assert(event_step(pre, mid, ev));
                        assert(*self == mid);
                    },
                    None => {
                        assert(same_engine_state(pre, *self));
                    },
                }
            }
            Ok(RunReport { event, message: None, notice: None })
        }
    }

    /// Makes the loop engine.  Register 0 is synthesized from the two click
    /// sounds into exactly one measure of metronome audio, set playing, and
    /// pushed to the playback stage so the very first measure has audio; the
    /// other registers start empty.
    pub fn new(
        playback: ringbuf::Producer<i64>,
        stream: ringbuf::Consumer<Sample>,
        samples_per_beat: usize,
        loop_message_receiver: std::sync::mpsc::Receiver<LoopMessage>,
        big_tick: &Vec<i64>,
        little_tick: &Vec<i64>,
    ) -> (r: Result<LoopManager, ConfigError>)
        requires
            1 <= samples_per_beat,
            samples_per_beat * 4 <= usize::MAX,
            audio_queue_pushed(playback) + samples_per_beat * 4 <= audio_queue_capacity(playback),
            forall|k: int| 0 <= k < big_tick@.len() ==> sample_ok(#[trigger] big_tick@[k]),
            forall|k: int| 0 <= k < little_tick@.len() ==> sample_ok(#[trigger] little_tick@[k]),
        ensures
            (big_tick@.len() > samples_per_beat || little_tick@.len() > samples_per_beat) <==> r
                is Err,
            r is Err ==> r == Err::<LoopManager, ConfigError>(ConfigError::ClickTooLong),
            r matches Ok(lm) ==> {
                &&& lm.wf()
                &&& !lm.draining()
                &&& lm.rec_index() is None
                &&& lm.spm() == samples_per_beat * 4
                &&& lm.loop_at(0) == spec_metronome(
                    big_tick@,
                    little_tick@,
                    samples_per_beat as nat,
                )
                &&& lm.loop_at(0).len() == lm.spm()
                &&& lm.statuses()[0] == LoopStatus::On(0usize)
                &&& lm.lengths()[0] == 1
                &&& forall|i: int|
                    1 <= i < NUM_LOOPS ==> #[trigger] lm.statuses()[i] == LoopStatus::Empty
                        && lm.lengths()[i] == 0 && lm.loop_at(i).len() == 0
                &&& lm.mixed() == lm.loop_at(0)
                &&& lm.mix_capacity() == audio_queue_capacity(playback)
            },
    {
        if big_tick.len() > samples_per_beat || little_tick.len() > samples_per_beat {
            return Err(ConfigError::ClickTooLong);
        }
        let spm = samples_per_beat * 4;
        let mut met: Vec<i64> = Vec::new();
        append_padded(&mut met, big_tick, samples_per_beat);
        append_padded(&mut met, little_tick, samples_per_beat);
        append_padded(&mut met, little_tick, samples_per_beat);
        append_padded(&mut met, little_tick, samples_per_beat);
        proof {
            assert(met@ =~= spec_metronome(big_tick@, little_tick@, samples_per_beat as nat));
        }
        let ghost met_seq = met@;
        let mut loops: Vec<Vec<i64>> = Vec::new();
        let mut status: Vec<LoopStatus> = Vec::new();
        let mut lengths: Vec<usize> = Vec::new();
        loops.push(met);
        status.push(LoopStatus::On(0));
        lengths.push(1);
        while loops.len() < NUM_LOOPS
            invariant
                1 <= loops@.len() <= NUM_LOOPS,
                status@.len() == loops@.len(),
                lengths@.len() == loops@.len(),
                loops@[0]@ == met_seq,
                met_seq.len() == 4 * samples_per_beat,
                forall|k: int| 0 <= k < met_seq.len() ==> sample_ok(#[trigger] met_seq[k]),
                status@[0] == LoopStatus::On(0usize),
                lengths@[0] == 1,
                forall|i: int|
                    1 <= i < loops@.len() ==> #[trigger] status@[i] == LoopStatus::Empty
                        && lengths@[i] == 0 && loops@[i]@.len() == 0,
            decreases NUM_LOOPS - loops@.len(),
        {
            loops.push(Vec::new());
            status.push(LoopStatus::Empty);
            lengths.push(0);
        }
        let mut lm = LoopManager {
            loops,
            lengths,
            status,
            playback,
            stream,
            samples_per_measure: spm,
            loop_message_receiver,
            recording_index: None,
            mode: Mode::Normal,
            mixed: Ghost(Seq::empty()),
        };
        proof {
            assert(lm.loop_at(0) == met_seq);
            assert forall|i: int| 0 <= i < NUM_LOOPS implies lm.slot_ok(i) by {
                if i == 0 {
                    assert(lm.loop_at(0).len() == 1 * lm.spm());
                }
            }
            assert forall|i: int, k: int|
                0 <= i < NUM_LOOPS && 0 <= k < lm.loop_at(i).len() implies sample_ok(
                #[trigger] lm.loop_at(i)[k],
            ) by {
                if i == 0 {
                    assert(sample_ok(met_seq[k]));
                } else {
                    assert(lm.statuses()[i] == LoopStatus::Empty);
                    assert(lm.loop_at(i).len() == 0);
                }
            }
            assert(lm.rec_ok());
            assert(lm.wf());
            assert(lm.mixed@ =~= met_seq.subrange(0, 0));
        }
        let ghost cap0 = audio_queue_capacity(lm.playback);
        let ghost pushed0 = audio_queue_pushed(lm.playback);
        let mut k: usize = 0;
        while k < spm
            invariant
                k <= spm,
                lm.wf(),
                !lm.draining(),
                lm.rec_index() is None,
                lm.spm() == spm,
                spm == samples_per_beat * 4,
                audio_queue_capacity(lm.playback) == cap0,
                audio_queue_pushed(lm.playback) == pushed0 + k,
                pushed0 + spm <= cap0,
                lm.loop_at(0) == met_seq,
                met_seq.len() == spm,
                met_seq == spec_metronome(big_tick@, little_tick@, samples_per_beat as nat),
                lm.statuses()[0] == LoopStatus::On(0usize),
                lm.lengths()[0] == 1,
                forall|i: int|
                    1 <= i < NUM_LOOPS ==> #[trigger] lm.statuses()[i] == LoopStatus::Empty
                        && lm.lengths()[i] == 0 && lm.loop_at(i).len() == 0,
                lm.mixed@ == met_seq.subrange(0, k as int),
            decreases spm - k,
        {
            let ghost pre = lm;
            let v = lm.loops[0][k];
            // The queue was made with room for this whole measure, so the
            // push cannot find it full.
            match audio_push(&mut lm.playback, v) {
                Ok(()) => {},
                Err(_) => {
                    return Err(ConfigError::ChannelFull);
                },
            }
            lm.mixed = Ghost(lm.mixed@.push(v));
            proof {
                lemma_wf_same_registers(pre, lm);
                assert(lm.mixed@ =~= met_seq.subrange(0, k + 1));
            }
            k = k + 1;
        }
        proof {
            assert(lm.mixed@ =~= met_seq);
        }
        Ok(lm)
    }
}

/// Report of one turn of the engine's loop, for the caller to log.
#[derive(Clone, Copy, Debug, PartialEq, Eq)]
pub struct RunReport {
    /// The clock event handled this turn, if one was waiting.
    pub event: Option<Sample>,
    /// The command applied this turn, if one was waiting.
    pub message: Option<LoopMessage>,
    /// The notice the command raised, if it was ignored.
    pub notice: Option<LoopNotice>,
}

/// Appends one click padded with silence up to a whole beat.
fn append_padded(met: &mut Vec<i64>, clicks: &Vec<i64>, spb: usize)
    requires
        clicks@.len() <= spb,
        old(met)@.len() + spb <= usize::MAX,
        forall|k: int| 0 <= k < old(met)@.len() ==> sample_ok(#[trigger] old(met)@[k]),
        forall|k: int| 0 <= k < clicks@.len() ==> sample_ok(#[trigger] clicks@[k]),
    ensures
        final(met)@ == old(met)@ + pad_to(clicks@, spb as nat),
        final(met)@.len() == old(met)@.len() + spb,
        forall|k: int| 0 <= k < final(met)@.len() ==> sample_ok(#[trigger] final(met)@[k]),
{
    let start = met.len();
    let mut k: usize = 0;
    while k < clicks.len()
        invariant
            k <= clicks@.len(),
            clicks@.len() <= spb,
            start == old(met)@.len(),
            start + spb <= usize::MAX,
            met@ == old(met)@ + clicks@.subrange(0, k as int),
            forall|q: int| 0 <= q < old(met)@.len() ==> sample_ok(#[trigger] old(met)@[q]),
            forall|q: int| 0 <= q < clicks@.len() ==> sample_ok(#[trigger] clicks@[q]),
            forall|q: int| 0 <= q < met@.len() ==> sample_ok(#[trigger] met@[q]),
        decreases clicks@.len() - k,
    {
        met.push(clicks[k]);
        proof {
            assert(met@ =~= old(met)@ + clicks@.subrange(0, k + 1));
        }
        k = k + 1;
    }
    proof {
        assert(clicks@.subrange(0, clicks@.len() as int) =~= clicks@);
    }
    let target = start + spb;
    while met.len() < target
        invariant
            start == old(met)@.len(),
            target == start + spb,
            clicks@.len() <= spb,
            met@.len() >= start + clicks@.len(),
            met@.len() <= target,
            met@ == old(met)@ + clicks@ + zeros((met@.len() - start - clicks@.len()) as nat),
            forall|q: int| 0 <= q < met@.len() ==> sample_ok(#[trigger] met@[q]),
        decreases target - met@.len(),
    {
        met.push(0);
        proof {
            assert(met@ =~= old(met)@ + clicks@ + zeros(
                (met@.len() - start - clicks@.len()) as nat,
            ));
        }
    }
    proof {
        assert(met@ =~= old(met)@ + pad_to(clicks@, spb as nat));
    }
}

/// A register's audio is the corresponding entry of the whole register
/// view: the two accessors agree, so callers can chain facts stated over
/// either one.
pub proof fn lemma_loop_at_is_view_entry(m: LoopManager, i: int)
    requires
        0 <= i < m.loops_view().len(),
    ensures
        m.loop_at(i) == m.loops_view()[i],
{
}

/// One measure of a register's audio: the `spm` samples of measure
/// `offset`.
pub open spec fn measure_slice(samples: Seq<i64>, spm: nat, offset: nat) -> Seq<i64> {
    samples.subrange((offset * spm) as int, (offset * spm + spm) as int)
}

/// The measure a loop of `k` measures plays `n` steps after starting at its
/// first measure: its measures cycle in order with period `k`.
pub open spec fn replayed_measure(samples: Seq<i64>, k: nat, spm: nat, n: nat) -> Seq<i64> {
    measure_slice(samples, spm, n % k)
}

/// The engine's per-measure advance realizes the cyclic offset sequence:
/// from offset `(start + n) % k` one advance reaches `(start + n + 1) % k`.
pub proof fn lemma_advance_offset(start: usize, n: nat, k: usize)
    requires
        0 < k,
    ensures
        advance_status(LoopStatus::On((((start + n) % (k as int)) as usize)), k)
            == LoopStatus::On((((start + n + 1) % (k as int)) as usize)),
{
    let m = k as int;
    let x = start + n as int;
    vstd::arithmetic::div_mod::lemma_add_mod_noop(x, 1, m);
    lemma_mod_bound_int(x, m);
    lemma_mod_bound_int(x + 1, m);
    if k == 1 {
        assert(1int % m == 0);
    } else {
        vstd::arithmetic::div_mod::lemma_small_mod(1, k as nat);
    }
}

/// `x % m` lies in `[0, m)` for positive `m` and nonnegative `x`.
proof fn lemma_mod_bound_int(x: int, m: int)
    requires
        0 <= x,
        0 < m,
    ensures
        0 <= x % m < m,
{
}

/// Replay round trip: a loop of `k` recorded measures playing alone is
/// mixed verbatim from its own audio: at playing offset `n % k` the mixed
/// sample at every position is the loop's own sample there, and the measure
/// replayed `n + k` steps after a start at offset zero equals the measure
/// replayed at step `n`, so each full cycle of `k` measures replays the
/// identical sample sequence.  Toggling the loop off and on restarts it at
/// offset zero (see `message_step`), so repeated cycles stay identical.
pub proof fn lemma_replay_round_trip(
    loops: Seq<Seq<i64>>,
    i: usize,
    k: usize,
    spm: nat,
    n: nat,
    pos: nat,
)
    requires
        0 < k,
        i < loops.len(),
        loops[i as int].len() == k * spm,
        pos < spm,
    ensures
        mix_sample(loops, seq![((((n % (k as nat)) as usize)), i)], spm, pos) == measure_slice(
            loops[i as int],
            spm,
            n % (k as nat),
        )[pos as int],
        replayed_measure(loops[i as int], k as nat, spm, (n + k) as nat) == replayed_measure(
            loops[i as int],
            k as nat,
            spm,
            n,
        ),
{
    let off = n % (k as nat);
    let entry = ((off as usize), i);
    lemma_mod_bound_int(n as int, k as int);
    assert(seq![entry].drop_last() =~= Seq::<(usize, usize)>::empty());
    assert(seq![entry].len() == 1);
    assert(seq![entry].last() == entry);
    assert(mix_sample(loops, seq![entry].drop_last(), spm, pos) == 0);
    assert(mix_sample(loops, seq![entry], spm, pos) == loop_contribution(loops, entry, spm, pos));
    vstd::arithmetic::mul::lemma_mul_inequality(off as int + 1, k as int, spm as int);
    assert((off + 1) * spm == off * spm + spm) by (nonlinear_arith);
    assert(measure_slice(loops[i as int], spm, off)[pos as int] == loops[i as int][(off * spm
        + pos) as int]);
    vstd::arithmetic::div_mod::lemma_mod_add_multiples_vanish(n as int, k as int);
    assert((n + k) as int % (k as int) == n as int % (k as int));
}

/// An event step out of a state holds equally out of any state with the
/// same registers, states, lengths, and bookkeeping: the step predicates
/// read nothing else.
proof fn lemma_event_step_same_state(
    pre: LoopManager,
    popped: LoopManager,
    post: LoopManager,
    event: Sample,
)
    requires
        popped.wf(),
        same_engine_state(pre, popped),
        event_step(popped, post, event),
    ensures
        event_step(pre, post, event),
{
    assert forall|i: int| 0 <= i < pre.loops_view().len() implies pre.loop_at(i) == popped.loop_at(
        i,
    ) by {
        assert(pre.loop_at(i) == pre.loops_view()[i]);
        assert(popped.loop_at(i) == popped.loops_view()[i]);
    }
    assert(pre.loops_view().len() == NUM_LOOPS);
    if pre.draining() {
        assert(0 <= pre.drain_target() < NUM_LOOPS);
        assert(pre.loop_at(pre.drain_target()) == popped.loop_at(popped.drain_target()));
    }
    match pre.rec_index() {
        Some(i) => {
            assert(0 <= i < NUM_LOOPS);
            assert(pre.loop_at(i as int) == popped.loop_at(i as int));
        },
        None => {},
    }
}

/// A command step out of a state holds equally out of any state with the
/// same registers, states, lengths, and bookkeeping.
proof fn lemma_message_step_same_state(
    pre: LoopManager,
    popped: LoopManager,
    post: LoopManager,
    message: LoopMessage,
    notice: Option<LoopNotice>,
)
    requires
        same_engine_state(pre, popped),
        message_step(popped, post, message, notice),
    ensures
        message_step(pre, post, message, notice),
{
}

/// Well-formedness only reads the registers, states, lengths, bookkeeping,
/// and mixed history: an engine equal in all of those to a well-formed one
/// is well-formed, whatever its queue endpoints hold.
proof fn lemma_wf_same_engine(pre: LoopManager, post: LoopManager)
    requires
        pre.wf(),
        post.loops_view() == pre.loops_view(),
        post.statuses() == pre.statuses(),
        post.lengths() == pre.lengths(),
        post.spm() == pre.spm(),
        post.rec_index() == pre.rec_index(),
        post.draining() == pre.draining(),
        post.mixed() == pre.mixed(),
        pre.draining() ==> post.drain_target() == pre.drain_target() && post.drain_base()
            == pre.drain_base(),
    ensures
        post.wf(),
{
    assert(post.loops_view().len() == NUM_LOOPS);
    assert forall|ii: int| 0 <= ii < NUM_LOOPS implies post.slot_ok(ii) by {
        assert(pre.slot_ok(ii));
        assert(post.loop_at(ii) == post.loops_view()[ii]);
        assert(pre.loop_at(ii) == pre.loops_view()[ii]);
    }
    assert forall|ii: int, kk: int|
        0 <= ii < NUM_LOOPS && 0 <= kk < post.loop_at(ii).len() implies sample_ok(
        #[trigger] post.loop_at(ii)[kk],
    ) by {
        assert(post.loop_at(ii) == post.loops_view()[ii]);
        assert(pre.loop_at(ii) == pre.loops_view()[ii]);
        assert(sample_ok(pre.loop_at(ii)[kk]));
    }
    assert(post.rec_ok()) by {
        assert forall|j: int|
            0 <= j < NUM_LOOPS implies recording_status(#[trigger] post.statuses()[j])
            == recording_status(pre.statuses()[j]) by {}
    }
    if post.draining() {
        let i = post.drain_target();
        assert(post.loop_at(i) == post.loops_view()[i]);
        assert(pre.loop_at(i) == pre.loops_view()[i]);
        assert(post.mode_ok());
    }
}

/// Well-formedness survives a change of one register's status that neither
/// creates an invalid playing offset nor disturbs the recording bookkeeping.
proof fn lemma_wf_after_one_status(pre: LoopManager, post: LoopManager, i: int)
    requires
        pre.wf(),
        !pre.draining(),
        !post.draining(),
        0 <= i < NUM_LOOPS,
        post.loops_view() == pre.loops_view(),
        post.lengths() == pre.lengths(),
        post.spm() == pre.spm(),
        post.rec_index() == pre.rec_index(),
        post.statuses() == pre.statuses().update(i, post.statuses()[i]),
        recording_status(post.statuses()[i]) == recording_status(pre.statuses()[i]),
        match post.statuses()[i] {
            LoopStatus::On(x) => x < pre.lengths()[i] && pre.loop_at(i).len() == pre.lengths()[i]
                * pre.spm(),
            LoopStatus::Off => pre.lengths()[i] >= 1 && pre.loop_at(i).len() == pre.lengths()[i]
                * pre.spm(),
            LoopStatus::Empty => pre.lengths()[i] == 0 && pre.loop_at(i).len() == 0,
            LoopStatus::RecordStart => pre.lengths()[i] == 0 && pre.loop_at(i).len() == 0,
            _ => true,
        },
    ensures
        post.wf(),
{
    assert(post.loops_view().len() == NUM_LOOPS);
    assert forall|ii: int| 0 <= ii < NUM_LOOPS implies post.slot_ok(ii) by {
        assert(pre.slot_ok(ii));
        assert(post.loop_at(ii) == post.loops_view()[ii]);
        assert(pre.loop_at(ii) == pre.loops_view()[ii]);
    }
    assert forall|ii: int, kk: int|
        0 <= ii < NUM_LOOPS && 0 <= kk < post.loop_at(ii).len() implies sample_ok(
        #[trigger] post.loop_at(ii)[kk],
    ) by {
        assert(post.loop_at(ii) == post.loops_view()[ii]);
        assert(pre.loop_at(ii) == pre.loops_view()[ii]);
        assert(sample_ok(pre.loop_at(ii)[kk]));
    }
    assert(post.rec_ok()) by {
        assert forall|j: int|
            0 <= j < NUM_LOOPS implies recording_status(#[trigger] post.statuses()[j])
            == recording_status(pre.statuses()[j]) by {}
    }
}

} // verus!
