//! The clock protocol between the playback stage and the loop stage.
//!
//! The playback stage tags the processed live signal with measure-boundary
//! markers: a `Tick` at the exact sample where one measure ends and the next
//! begins, and a `PreTick` exactly one audio block earlier, so the loop stage
//! can have the next measure's mix ready in time.  The spec functions here
//! give the exact event sequence the protocol emits for a given flat input
//! stream, and the lemmas relate the marker counts and positions to the
//! number of samples processed.
use vstd::prelude::*;
use vstd::arithmetic::div_mod::lemma_fundamental_div_mod;
use vstd::arithmetic::div_mod::lemma_fundamental_div_mod_converse;

verus! {

/// One event on the clocked sample stream from the playback stage to the
/// loop stage.
#[derive(Clone, Copy, Debug, PartialEq, Eq, Structural)]
pub enum Sample {
    /// A single audio sample, in the engine's fixed-point representation.
    Data(i64),
    /// Marks the exact sample boundary where a measure ends and the next
    /// begins.
    Tick,
    /// Lookahead marker, pushed exactly one audio block before the `Tick`
    /// it announces, telling the loop stage to mix the next measure now.
    PreTick,
}

/// The sample counter after one more sample is processed when it stood at
/// `c`: a counter that has reached `spm` resets before counting the new
/// sample.
pub open spec fn step_counter(c: nat, spm: nat) -> nat {
    if c == spm {
        1
    } else {
        c + 1
    }
}

/// The sample counter after `t` samples have been processed, starting
/// from zero.  It stays in `[0, spm]`; `spm` means a measure boundary is
/// due before the next sample.
pub open spec fn counter_after(t: nat, spm: nat) -> nat
    decreases t,
{
    if t == 0 {
        0
    } else {
        step_counter(counter_after((t - 1) as nat, spm), spm)
    }
}

/// The markers pushed ahead of a sample when the counter stands at `c`:
/// a `Tick` at the measure boundary, a `PreTick` one block before it.
pub open spec fn marks_at(c: nat, spm: nat, block: nat) -> Seq<Sample> {
    if c == spm {
        seq![Sample::Tick]
    } else if c + block == spm {
        seq![Sample::PreTick]
    } else {
        Seq::empty()
    }
}

/// The exact event sequence the clock protocol emits for the flat input
/// stream `inputs`, with `spm` samples per measure and blocks of `block`
/// samples.
pub open spec fn clock_stream(inputs: Seq<i64>, spm: nat, block: nat) -> Seq<Sample>
    decreases inputs.len(),
{
    if inputs.len() == 0 {
        Seq::empty()
    } else {
        clock_stream(inputs.drop_last(), spm, block) + marks_at(
            counter_after((inputs.len() - 1) as nat, spm),
            spm,
            block,
        ) + seq![Sample::Data(inputs.last())]
    }
}

/// How many `Tick` events a sequence holds.
pub open spec fn count_ticks(s: Seq<Sample>) -> nat
    decreases s.len(),
{
    if s.len() == 0 {
        0
    } else {
        count_ticks(s.drop_last()) + (if s.last() is Tick {
            1nat
        } else {
            0nat
        })
    }
}

/// How many `PreTick` events a sequence holds.
pub open spec fn count_preticks(s: Seq<Sample>) -> nat
    decreases s.len(),
{
    if s.len() == 0 {
        0
    } else {
        count_preticks(s.drop_last()) + (if s.last() is PreTick {
            1nat
        } else {
            0nat
        })
    }
}

/// How many `Data` events a sequence holds.
pub open spec fn count_data(s: Seq<Sample>) -> nat
    decreases s.len(),
{
    if s.len() == 0 {
        0
    } else {
        count_data(s.drop_last()) + (if s.last() is Data {
            1nat
        } else {
            0nat
        })
    }
}

/// How many `Tick` events the protocol has emitted after `t` samples: one
/// for every full measure that a later sample has already been seen for.
pub open spec fn spec_tick_count(t: nat, spm: nat) -> nat {
    if t == 0 {
        0
    } else {
        (((t - 1) as nat) / spm) as nat
    }
}

/// How many `PreTick` events the protocol has emitted after `t` samples:
/// one per measure whose lookahead point, `block` samples before its end,
/// has been reached.
pub open spec fn spec_pretick_count(t: nat, spm: nat, block: nat) -> nat
    recommends
        0 < block < spm,
{
    if t <= spm - block {
        0
    } else {
        ((t - (spm - block) - 1) as nat) / spm + 1
    }
}

/// The counter's closed form: after `t > 0` samples it stands at
/// `(t - 1) % spm + 1`.
pub proof fn lemma_counter_after_closed(t: nat, spm: nat)
    requires
        spm > 0,
    ensures
        t == 0 ==> counter_after(t, spm) == 0,
        t > 0 ==> counter_after(t, spm) == ((t - 1) as nat % spm) + 1,
        counter_after(t, spm) <= spm,
    decreases t,
{
    if t > 0 {
        lemma_counter_after_closed((t - 1) as nat, spm);
        if t == 1 {
            assert(counter_after(1, spm) == step_counter(0, spm));
            vstd::arithmetic::div_mod::lemma_small_mod(0, spm);
        } else {
            let a = (t - 2) as int;
            let m = spm as int;
            let q = a / m;
            lemma_fundamental_div_mod(a, m);
            lemma_mod_bound_int(a, m);
            assert((q + 1) * m == m * q + m) by (nonlinear_arith);
            assert(q * m == m * q) by (nonlinear_arith);
            if a % m == m - 1 {
                lemma_fundamental_div_mod_converse(a + 1, m, q + 1, 0);
            } else {
                lemma_fundamental_div_mod_converse(a + 1, m, q, a % m + 1);
            }
        }
    }
}

/// `x % m` lies in `[0, m)` for positive `m` and nonnegative `x`.
proof fn lemma_mod_bound_int(x: int, m: int)
    requires
        0 <= x,
        0 < m,
    ensures
        0 <= x % m < m,
{
}

/// Event counts of a one-element sequence.
proof fn lemma_counts_singleton(e: Sample)
    ensures
        count_ticks(seq![e]) == (if e is Tick { 1nat } else { 0nat }),
        count_preticks(seq![e]) == (if e is PreTick { 1nat } else { 0nat }),
        count_data(seq![e]) == (if e is Data { 1nat } else { 0nat }),
{
    let s = seq![e];
    assert(s.len() == 1);
    assert(s.last() == e);
    assert(s.drop_last() =~= Seq::<Sample>::empty());
    assert(count_ticks(s.drop_last()) == 0);
    assert(count_preticks(s.drop_last()) == 0);
    assert(count_data(s.drop_last()) == 0);
}

/// Counting events distributes over concatenation.
proof fn lemma_counts_concat(a: Seq<Sample>, b: Seq<Sample>)
    ensures
        count_ticks(a + b) == count_ticks(a) + count_ticks(b),
        count_preticks(a + b) == count_preticks(a) + count_preticks(b),
        count_data(a + b) == count_data(a) + count_data(b),
    decreases b.len(),
{
    if b.len() == 0 {
        assert(a + b =~= a);
    } else {
        lemma_counts_concat(a, b.drop_last());
        assert((a + b).drop_last() =~= a + b.drop_last());
        assert((a + b).last() == b.last());
    }
}

/// The number of `Tick` events emitted for `inputs` is exactly one per
/// completed measure that a later sample has been processed for, and every
/// input sample appears as exactly one `Data` event, in order.
pub proof fn lemma_clock_stream_counts(inputs: Seq<i64>, spm: nat, block: nat)
    requires
        spm > 0,
    ensures
        count_ticks(clock_stream(inputs, spm, block)) == spec_tick_count(inputs.len(), spm),
        count_data(clock_stream(inputs, spm, block)) == inputs.len(),
        0 < block < spm ==> count_preticks(clock_stream(inputs, spm, block))
            == spec_pretick_count(inputs.len(), spm, block),
    decreases inputs.len(),
{
    let t = inputs.len();
    if t > 0 {
        let prev = inputs.drop_last();
        lemma_clock_stream_counts(prev, spm, block);
        let c = counter_after((t - 1) as nat, spm);
        let marks = marks_at(c, spm, block);
        let s = clock_stream(prev, spm, block);
        lemma_counts_concat(s, marks);
        lemma_counts_concat(s + marks, seq![Sample::Data(inputs.last())]);
        assert(clock_stream(inputs, spm, block) == (s + marks) + seq![Sample::Data(inputs.last())]);
        lemma_counts_singleton(Sample::Data(inputs.last()));
        if c == spm {
            lemma_counts_singleton(Sample::Tick);
        } else if c + block == spm {
            lemma_counts_singleton(Sample::PreTick);
        }
        lemma_counter_after_closed((t - 1) as nat, spm);
        // Whether a tick is emitted for the new sample is decided by whether
        // its index t - 1 starts a new measure.
        let a = (t - 1) as int;
        let m = spm as int;
        if a == 0 {
            assert(c == 0);
            assert(spec_tick_count(t, spm) == 0) by {
                lemma_fundamental_div_mod_converse(0, m, 0, 0);
            }
        } else {
            let q = (a - 1) / m;
            lemma_fundamental_div_mod(a - 1, m);
            lemma_mod_bound_int(a - 1, m);
            assert((q + 1) * m == m * q + m) by (nonlinear_arith);
            assert(q * m == m * q) by (nonlinear_arith);
            if c == spm {
                // (a - 1) % m == m - 1, so a is a multiple of m and the
                // quotient grows by one.
                lemma_fundamental_div_mod_converse(a, m, q + 1, 0);
            } else {
                lemma_fundamental_div_mod_converse(a, m, q, (a - 1) % m + 1);
            }
        }
        if 0 < block < spm {
            lemma_pretick_count_step(t, spm, block, c);
        }
    }
}

/// One induction step of the `PreTick` count: the marker is emitted for the
/// sample at index `t - 1` exactly when that index sits `block` samples
/// before a measure boundary, and the closed-form count grows by one there.
proof fn lemma_pretick_count_step(t: nat, spm: nat, block: nat, c: nat)
    requires
        0 < block < spm,
        t > 0,
        c == counter_after((t - 1) as nat, spm),
    ensures
        spec_pretick_count(t, spm, block) == spec_pretick_count((t - 1) as nat, spm, block) + (
        if c + block == spm && c != spm {
            1nat
        } else {
            0nat
        }),
{
    let a = (t - 1) as int;
    let m = spm as int;
    let lead = m - block;
    lemma_counter_after_closed((t - 1) as nat, spm);
    if a == 0 {
        assert(c == 0);
        assert(c + block != spm);
        assert(t <= spm - block || t > spm - block && t - (spm - block) - 1 == 0 - lead);
        assert(spec_pretick_count(1, spm, block) == 0);
    } else {
        lemma_fundamental_div_mod(a - 1, m);
        lemma_mod_bound_int(a - 1, m);
        let q = (a - 1) / m;
        assert((q + 1) * m == m * q + m) by (nonlinear_arith);
        assert(q * m == m * q) by (nonlinear_arith);
        if c + block == spm {
            // (a - 1) % m == lead - 1, so a - lead is a multiple of m: one
            // more lookahead point has been passed.
            assert((a - 1) % m == lead - 1);
            assert(a - 1 == m * q + (lead - 1));
            assert(a == q * m + lead);
            assert(t - lead - 1 == q * m);
            lemma_fundamental_div_mod_converse(q * m, m, q, 0);
            assert(spec_pretick_count(t, spm, block) == q + 1);
            if q == 0 {
                assert(q * m == 0) by (nonlinear_arith)
                    requires
                        q == 0,
                ;
                assert(a == lead);
                assert(spec_pretick_count((t - 1) as nat, spm, block) == 0);
            } else {
                assert(a - lead - 1 == q * m - 1);
                assert((q - 1) * m == q * m - m) by (nonlinear_arith);
                lemma_fundamental_div_mod_converse(q * m - 1, m, q - 1, m - 1);
                assert(spec_pretick_count((t - 1) as nat, spm, block) == q);
            }
        } else {
            // No lookahead point at this sample: the count stands.
            assert((a - 1) % m != lead - 1);
            if a < lead {
                assert(spec_pretick_count(t, spm, block) == 0);
                assert(spec_pretick_count((t - 1) as nat, spm, block) == 0);
            } else if a == lead {
                // Would be a lookahead point: contradiction with the counter.
                assert((a - 1) % m == a - 1) by {
                    vstd::arithmetic::div_mod::lemma_small_mod((a - 1) as nat, spm);
                }
                assert(false);
            } else {
                let r = (a - 1 - lead) % m;
                let p = (a - 1 - lead) / m;
                lemma_fundamental_div_mod(a - 1 - lead, m);
                lemma_mod_bound_int(a - 1 - lead, m);
                assert((p + 1) * m == m * p + m) by (nonlinear_arith);
                assert(p * m == m * p) by (nonlinear_arith);
                // a - 1 - lead = p m + r with r < m - 1: else a - 1 would sit
                // lead - 1 past a boundary, the excluded lookahead case.
                assert(r != m - 1) by {
                    if r == m - 1 {
                        assert(a - 1 == (p + 1) * m + (lead - 1));
                        assert((p + 1) * m + (lead - 1) == m * (p + 1) + (lead - 1))
                            by (nonlinear_arith);
                        lemma_fundamental_div_mod_converse(a - 1, m, p + 1, lead - 1);
                    }
                }
                lemma_fundamental_div_mod_converse(a - lead, m, p, r + 1);
                assert(spec_pretick_count(t, spm, block) == p + 1);
                assert(spec_pretick_count((t - 1) as nat, spm, block) == p + 1);
            }
        }
    }
}

/// The `Tick`s emitted for `inputs` number exactly one per completed
/// measure: `floor(samples / spm)`, away from the exact boundary where the
/// measure's closing `Tick` is still one sample ahead.
pub proof fn lemma_tick_count_floor(inputs: Seq<i64>, spm: nat, block: nat)
    requires
        spm > 0,
        inputs.len() % spm != 0,
    ensures
        count_ticks(clock_stream(inputs, spm, block)) == inputs.len() / spm,
{
    lemma_clock_stream_counts(inputs, spm, block);
    let t = inputs.len() as int;
    let m = spm as int;
    lemma_fundamental_div_mod(t, m);
    lemma_mod_bound_int(t, m);
    assert(m * (t / m) == (t / m) * m) by (nonlinear_arith);
    lemma_fundamental_div_mod_converse(t - 1, m, t / m, t % m - 1);
}

/// Positions `i < j` bracket a lookahead window: a `PreTick` at `i`, and
/// nothing but audio samples strictly between `i` and `j`.
pub open spec fn pretick_pair_at(s: Seq<Sample>, i: int, j: int) -> bool {
    &&& 0 <= i < j < s.len()
    &&& s[i] is PreTick
    &&& forall|m: int| i < m < j ==> s[m] is Data
}

/// The `Tick` at position `j` was announced by a `PreTick` exactly `block`
/// samples earlier: between the two stand `block` `Data` events and nothing
/// else.
pub open spec fn tick_paired(s: Seq<Sample>, j: int, block: nat) -> bool {
    exists|i: int| (#[trigger] pretick_pair_at(s, i, j)) && j - i - 1 == block
}

/// Between a measure's `PreTick` and its `Tick`, the stream so far ends in
/// the announced window: a `PreTick` followed only by the `Data` events seen
/// since, one per sample the counter has advanced past the lookahead point.
pub open spec fn pending_pretick(s: Seq<Sample>, c: nat, spm: nat, block: nat) -> bool {
    c > spm - block ==> {
        let d = c - (spm - block);
        &&& s.len() >= d + 1
        &&& s[s.len() - d - 1] is PreTick
        &&& forall|m: int| s.len() - d <= m < s.len() ==> s[m] is Data
    }
}

/// The protocol invariant behind the pairing: every `Tick` emitted so far is
/// paired, and a `PreTick` whose `Tick` is still to come sits exactly as many
/// samples back as the counter has moved past the lookahead point.
proof fn lemma_pairing_invariant(inputs: Seq<i64>, spm: nat, block: nat)
    requires
        0 < block < spm,
    ensures
        pending_pretick(
            clock_stream(inputs, spm, block),
            counter_after(inputs.len(), spm),
            spm,
            block,
        ),
        forall|j: int|
            0 <= j < clock_stream(inputs, spm, block).len() && clock_stream(inputs, spm, block)[j]
                is Tick ==> tick_paired(clock_stream(inputs, spm, block), j, block),
    decreases inputs.len(),
{
    let s = clock_stream(inputs, spm, block);
    let t = inputs.len();
    if t == 0 {
    } else {
        let prev = inputs.drop_last();
        lemma_pairing_invariant(prev, spm, block);
        lemma_counter_after_closed((t - 1) as nat, spm);
        lemma_counter_after_closed(t, spm);
        let s0 = clock_stream(prev, spm, block);
        let c0 = counter_after((t - 1) as nat, spm);
        let marks = marks_at(c0, spm, block);
        assert(s == (s0 + marks) + seq![Sample::Data(inputs.last())]);
        assert forall|j: int| 0 <= j < s.len() && s[j] is Tick implies tick_paired(
            s,
            j,
            block,
        ) by {
            if j < s0.len() {
                assert(s[j] == s0[j]);
                assert(tick_paired(s0, j, block));
                let i0 = choose|i: int| (#[trigger] pretick_pair_at(s0, i, j)) && j - i - 1
                    == block;
                assert forall|m: int| i0 < m < j implies s[m] is Data by {
                    assert(s[m] == s0[m]);
                }
                assert(pretick_pair_at(s, i0, j));
            } else if c0 == spm && j == s0.len() {
                // The new Tick: its PreTick sits one block of samples back,
                // by the pending window of the induction hypothesis.
                let i0 = s0.len() - block - 1;
                assert(s0[i0] is PreTick);
                assert(s[i0] == s0[i0]);
                assert forall|m: int| i0 < m < j implies s[m] is Data by {
                    assert(s[m] == s0[m]);
                    assert(s0.len() - block <= m < s0.len());
                }
                assert(pretick_pair_at(s, i0, j) && j - i0 - 1 == block);
            } else {
                // The remaining new positions hold the PreTick mark or the
                // Data event, never a Tick.
                assert(!(s[j] is Tick));
            }
        }
        let c = counter_after(t, spm);
        assert(c == step_counter(c0, spm));
        if c > spm - block {
            let d = c - (spm - block);
            if c0 == spm {
                // The counter just reset; past the lookahead point would
                // mean the block does not fit in a measure.
                assert(c == 1);
                assert(false);
            } else if c0 + block == spm {
                // The PreTick was just emitted, followed by one Data event.
                assert(d == 1);
                assert(s[s.len() - 2] is PreTick);
                assert(s[s.len() - 1] is Data);
            } else {
                // One more Data event after an already-pending PreTick.
                let d0 = c0 - (spm - block);
                assert(c0 > spm - block);
                assert(d == d0 + 1);
                assert(d <= block);
                assert(marks =~= Seq::<Sample>::empty());
                assert(s =~= s0 + seq![Sample::Data(inputs.last())]);
                assert(s.len() == s0.len() + 1);
                assert(s[s.len() - d - 1] == s0[s0.len() - d0 - 1]);
                assert forall|m: int| s.len() - d <= m < s.len() implies s[m] is Data by {
                    if m < s0.len() {
                        assert(s[m] == s0[m]);
                        assert(s0.len() - d0 <= m < s0.len());
                    } else {
                        assert(s[m] == Sample::Data(inputs.last()));
                    }
                }
            }
        }
    }
}

/// Exactly one `PreTick` precedes each `Tick`, exactly one block ahead: for
/// every `Tick` of the protocol's stream there is an earlier `PreTick` with
/// precisely `block` `Data` events, and nothing else, between the two.
pub proof fn lemma_pretick_precedes_tick(inputs: Seq<i64>, spm: nat, block: nat, j: int)
    requires
        0 < block < spm,
        0 <= j < clock_stream(inputs, spm, block).len(),
        clock_stream(inputs, spm, block)[j] is Tick,
    ensures
        tick_paired(clock_stream(inputs, spm, block), j, block),
{
    lemma_pairing_invariant(inputs, spm, block);
}

/// A prefix relation: `a` is the first `a.len()` elements of `b`.
pub open spec fn seq_prefix_of(a: Seq<Sample>, b: Seq<Sample>) -> bool {
    a.len() <= b.len() && a == b.subrange(0, a.len() as int)
}

/// Prefixes chain: a prefix of a prefix is a prefix.
pub proof fn lemma_prefix_chain(a: Seq<Sample>, b: Seq<Sample>, c: Seq<Sample>)
    requires
        seq_prefix_of(a, b),
        seq_prefix_of(b, c),
    ensures
        seq_prefix_of(a, c),
{
    assert(a =~= c.subrange(0, a.len() as int)) by {
        assert forall|k: int| 0 <= k < a.len() implies a[k] == c.subrange(0, a.len() as int)[k] by {
            assert(a[k] == b.subrange(0, a.len() as int)[k]);
            assert(b[k] == c.subrange(0, b.len() as int)[k]);
        }
    }
}

/// The protocol's stream for an extended input has the original stream as a
/// prefix: later samples only append events.
pub proof fn lemma_clock_stream_prefix(a: Seq<i64>, b: Seq<i64>, spm: nat, block: nat)
    requires
        a.len() <= b.len(),
        a == b.subrange(0, a.len() as int),
    ensures
        seq_prefix_of(clock_stream(a, spm, block), clock_stream(b, spm, block)),
    decreases b.len() - a.len(),
{
    let sa = clock_stream(a, spm, block);
    let sb = clock_stream(b, spm, block);
    if a.len() == b.len() {
        assert(a =~= b);
        assert(sa =~= sb.subrange(0, sa.len() as int));
    } else {
        assert(a == b.drop_last().subrange(0, a.len() as int)) by {
            assert(b.drop_last().subrange(0, a.len() as int) =~= b.subrange(0, a.len() as int));
        }
        lemma_clock_stream_prefix(a, b.drop_last(), spm, block);
        let sp = clock_stream(b.drop_last(), spm, block);
        assert(seq_prefix_of(sp, sb)) by {
            assert(sp =~= sb.subrange(0, sp.len() as int));
        }
        lemma_prefix_chain(sa, sp, sb);
    }
}

} // verus!
