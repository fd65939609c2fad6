//! Sample-wise mixing of the active loops.
//!
//! A mixed output sample is the sum, over the active loops, of each loop's
//! sample at its own playback offset.  The lemmas here state the algebra of
//! that sum: adding one more active loop adds exactly its contribution, and
//! the sum does not depend on the order the active loops were collected in,
//! so mixing is commutative and associative.
use vstd::prelude::*;

verus! {

/// What one active loop adds to the mixed sample at `pos`: its recorded
/// sample at `pos` within the measure it currently plays.  An entry pairs
/// the loop's measure offset with its register index.
pub open spec fn loop_contribution(
    loops: Seq<Seq<i64>>,
    entry: (usize, usize),
    spm: nat,
    pos: nat,
) -> int {
    loops[entry.1 as int][entry.0 * spm + pos] as int
}

/// The mixed sample at `pos`: the sum of every active loop's contribution.
pub open spec fn mix_sample(
    loops: Seq<Seq<i64>>,
    active: Seq<(usize, usize)>,
    spm: nat,
    pos: nat,
) -> int
    decreases active.len(),
{
    if active.len() == 0 {
        0
    } else {
        mix_sample(loops, active.drop_last(), spm, pos) + loop_contribution(
            loops,
            active.last(),
            spm,
            pos,
        )
    }
}

/// Mixing one more active loop adds exactly that loop's contribution to
/// every position's sum.
pub proof fn lemma_mix_insert(
    loops: Seq<Seq<i64>>,
    active: Seq<(usize, usize)>,
    entry: (usize, usize),
    spm: nat,
    pos: nat,
)
    ensures
        mix_sample(loops, active.push(entry), spm, pos) == mix_sample(loops, active, spm, pos)
            + loop_contribution(loops, entry, spm, pos),
{
    assert(active.push(entry).drop_last() =~= active);
}

/// Removing the entry at `j` takes exactly its contribution out of the sum.
proof fn lemma_mix_remove(
    loops: Seq<Seq<i64>>,
    active: Seq<(usize, usize)>,
    j: int,
    spm: nat,
    pos: nat,
)
    requires
        0 <= j < active.len(),
    ensures
        mix_sample(loops, active, spm, pos) == mix_sample(loops, active.remove(j), spm, pos)
            + loop_contribution(loops, active[j], spm, pos),
    decreases active.len(),
{
    if j == active.len() - 1 {
        assert(active.remove(j) =~= active.drop_last());
    } else {
        lemma_mix_remove(loops, active.drop_last(), j, spm, pos);
        assert(active.remove(j).drop_last() =~= active.drop_last().remove(j));
        assert(active.remove(j).last() == active.last());
    }
}

/// Mixing is commutative and associative: any two collections of the same
/// active loops, in any order, mix to the same sample at every position.
pub proof fn lemma_mix_permutation(
    loops: Seq<Seq<i64>>,
    a: Seq<(usize, usize)>,
    b: Seq<(usize, usize)>,
    spm: nat,
    pos: nat,
)
    requires
        a.to_multiset() == b.to_multiset(),
    ensures
        mix_sample(loops, a, spm, pos) == mix_sample(loops, b, spm, pos),
    decreases a.len(),
{
    broadcast use vstd::seq_lib::group_to_multiset_ensures;

    if a.len() == 0 {
        assert(b.to_multiset().len() == 0);
        assert(b.len() == 0);
    } else {
        let x = a.last();
        assert(a.to_multiset().count(x) > 0) by {
            assert(a.contains(x));
        }
        assert(b.contains(x));
        let j = choose|j: int| 0 <= j < b.len() && b[j] == x;
        let b2 = b.remove(j);
        assert(a.drop_last().push(x) =~= a);
        assert(a.drop_last().to_multiset().insert(x) == a.to_multiset());
        assert(b2.to_multiset() == b.to_multiset().remove(x));
        assert(a.drop_last().to_multiset() =~= b2.to_multiset()) by {
            assert(forall|e: (usize, usize)|
                a.drop_last().to_multiset().count(e) == b2.to_multiset().count(e));
        }
        lemma_mix_permutation(loops, a.drop_last(), b2, spm, pos);
        lemma_mix_remove(loops, b, j, spm, pos);
    }
}

} // verus!
