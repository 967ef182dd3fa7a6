//! Window-shape gate from an earlier stimulation prototype: checks how
//! much of each feature window sits below one standard deviation above
//! its mean.
use vstd::prelude::*;

use crate::SCALE;
use crate::VAL_BOUND;

verus! {

/// How many samples lie strictly below the target level.
pub open spec fn count_below(s: Seq<i64>, t: int) -> int
    decreases s.len(),
{
    if s.len() == 0 {
        0
    } else {
        count_below(s.drop_last(), t) + if s.last() < t {
            1int
        } else {
            0int
        }
    }
}

proof fn lemma_count_below_range(s: Seq<i64>, t: int)
    ensures
        0 <= count_below(s, t) <= s.len(),
    decreases s.len(),
{
    if s.len() > 0 {
        lemma_count_below_range(s.drop_last(), t);
    }
}

fn count_below_target(data: &[i64], target: i64) -> (c: usize)
    ensures
        c == count_below(data@, target as int),
{
    let mut c: usize = 0;
    let mut i: usize = 0;
    while i < data.len()
        invariant
            i <= data@.len(),
            c == count_below(data@.subrange(0, i as int), target as int),
            c <= i,
        decreases data@.len() - i,
    {
        proof {
            assert(data@.subrange(0, i + 1).drop_last() =~= data@.subrange(0, i as int));
            assert(data@.subrange(0, i + 1).last() == data@[i as int]);
            lemma_count_below_range(data@.subrange(0, i as int), target as int);
        }
        if data[i] < target {
            c = c + 1;
        }
        i = i + 1;
    }
    proof {
        assert(data@.subrange(0, data@.len() as int) =~= data@);
    }
    c
}

/// Whether the first channel's window qualifies for stimulation: the
/// fraction of its samples lying strictly below one standard deviation
/// above the channel mean must exceed `percentage` (a fraction in
/// fixed-point ticks). The second channel's window is accepted
/// alongside for symmetry but the decision follows the first channel's
/// fraction alone. An empty first window never qualifies.
#[allow(unused_variables)]
pub fn qualifies_for_stimulation(
    v0: &[i64],
    v1: &[i64],
    averages: (i64, i64),
    stddevs: (i64, i64),
    percentage: i64,
) -> (r: bool)
    requires
        -VAL_BOUND <= averages.0 <= VAL_BOUND,
        0 <= stddevs.0 <= VAL_BOUND,
        -VAL_BOUND <= percentage <= VAL_BOUND,
    ensures
        r == (v0@.len() > 0 && SCALE * count_below(v0@, averages.0 + stddevs.0) > percentage
            * v0@.len()),
{
    let target0: i64 = averages.0 + stddevs.0;
    let count0: usize = count_below_target(v0, target0);
    let total0: usize = v0.len();
    if total0 == 0 {
        return false;
    }
    proof {
        lemma_count_below_range(v0@, target0 as int);
        assert(0 <= 1_000_000 * (count0 as int)
            < 0x8000_0000_0000_0000_0000_0000_0000_0000) by (nonlinear_arith)
            requires
                0 <= count0 <= 0x1_0000_0000_0000_0000,
        ;
        assert(-0x8000_0000_0000_0000_0000_0000_0000_0000 < (percentage as int) * (total0 as int)
            < 0x8000_0000_0000_0000_0000_0000_0000_0000) by (nonlinear_arith)
            requires
                -0x100_0000_0000 <= percentage <= 0x100_0000_0000,
                0 <= total0 <= 0x1_0000_0000_0000_0000,
        ;
    }
    let lhs: i128 = (SCALE as i128) * (count0 as i128);
    let rhs: i128 = (percentage as i128) * (total0 as i128);
    lhs > rhs
}

} // verus!
