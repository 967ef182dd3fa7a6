//! Rolling statistics accumulator: per-epoch mean and population
//! standard deviation over the raw `(v0, v1)` pairs, published with a
//! one-epoch lag.
use vstd::prelude::*;

use crate::VAL_BOUND;
use crate::util::all_le;
use crate::util::average_vec;
use crate::util::column;
use crate::util::lemma_column_bounded;
use crate::util::lemma_column_len;
use crate::util::lemma_column_push;
use crate::util::mean_tz;
use crate::util::pop_variance;
use crate::util::rows_bounded;
use crate::util::sqrt_floor;
use crate::util::std_dev;

verus! {

/// Statistics of one closed epoch.
#[derive(Clone, Copy, PartialEq, Eq, Structural, Debug)]
pub struct EpochStats {
    pub mean0: i64,
    pub mean1: i64,
    pub std0: i64,
    pub std1: i64,
    pub epoch_end: i64,
}

/// The statistics published when an epoch closes over the given
/// per-channel samples.
pub open spec fn epoch_stats_of(c0: Seq<i64>, c1: Seq<i64>, end_time: i64) -> EpochStats {
    EpochStats {
        mean0: mean_tz(c0) as i64,
        mean1: mean_tz(c1) as i64,
        std0: sqrt_floor(pop_variance(c0)) as i64,
        std1: sqrt_floor(pop_variance(c1)) as i64,
        epoch_end: end_time,
    }
}

/// Mathematical model of the accumulator: the two channel columns of
/// the open epoch, its start, and the last published statistics.
#[verifier::ext_equal]
pub struct EpochModel {
    pub c0: Seq<i64>,
    pub c1: Seq<i64>,
    pub epoch_start: i64,
    pub epoch_len: i64,
    pub published: EpochStats,
}

/// One arriving pair: it always joins the open epoch; if the epoch
/// boundary has passed, the epoch (pair included) is closed, its
/// statistics are published for the next epoch to read, and the
/// accumulation list is cleared.
pub open spec fn epoch_step(m: EpochModel, now: i64, v0: i64, v1: i64) -> EpochModel {
    let c0 = m.c0.push(v0);
    let c1 = m.c1.push(v1);
    if now - m.epoch_start > m.epoch_len {
        EpochModel {
            c0: Seq::<i64>::empty(),
            c1: Seq::<i64>::empty(),
            epoch_start: now,
            epoch_len: m.epoch_len,
            published: epoch_stats_of(c0, c1, now),
        }
    } else {
        EpochModel { c0, c1, ..m }
    }
}

/// Accumulates raw sample pairs and closes an epoch after each
/// `epoch_len` ticks of wall-clock time, independent of sample count.
pub struct EpochAccumulator {
    pub pairs: Vec<Vec<i64>>,
    pub epoch_start: i64,
    pub epoch_len: i64,
    pub published: EpochStats,
}

impl View for EpochAccumulator {
    type V = EpochModel;

    open spec fn view(&self) -> EpochModel {
        EpochModel {
            c0: column(self.pairs@, 0),
            c1: column(self.pairs@, 1),
            epoch_start: self.epoch_start,
            epoch_len: self.epoch_len,
            published: self.published,
        }
    }
}

impl EpochAccumulator {
    pub open spec fn wf(&self) -> bool {
        &&& 0 < self.epoch_len
        &&& rows_bounded(self.pairs@)
        &&& forall|i: int| 0 <= i < self.pairs@.len() ==> (#[trigger] self.pairs@[i]@).len() == 2
        &&& self.pairs@.len() < 0x1_0000_0000
    }

    /// An empty accumulator whose first epoch starts at `start`.
    pub fn new(start: i64, epoch_len: i64) -> (a: Self)
        requires
            0 < epoch_len,
        ensures
            a.wf(),
            a@.c0 == Seq::<i64>::empty(),
            a@.c1 == Seq::<i64>::empty(),
            a@.epoch_start == start,
            a@.epoch_len == epoch_len,
            a@.published == (EpochStats { mean0: 0, mean1: 0, std0: 0, std1: 0, epoch_end: 0 }),
    {
        EpochAccumulator {
            pairs: Vec::new(),
            epoch_start: start,
            epoch_len,
            published: EpochStats { mean0: 0, mean1: 0, std0: 0, std1: 0, epoch_end: 0 },
        }
    }

    /// Folds one raw pair in at time `now`.
    pub fn observe(&mut self, now: i64, v0: i64, v1: i64)
        requires
            old(self).wf(),
            -VAL_BOUND <= v0 <= VAL_BOUND,
            -VAL_BOUND <= v1 <= VAL_BOUND,
            old(self).pairs@.len() + 1 < 0x1_0000_0000,
        ensures
            final (self).wf(),
            final (self)@ == epoch_step(old(self)@, now, v0, v1),
            final (self).pairs@.len() <= old(self).pairs@.len() + 1,
            final (self).epoch_len == old(self).epoch_len,
    {
        let mut row: Vec<i64> = Vec::new();
        row.push(v0);
        row.push(v1);
        proof {
            lemma_column_push(old(self).pairs@, row, 0);
            lemma_column_push(old(self).pairs@, row, 1);
        }
        self.pairs.push(row);
        proof {
            assert forall|i: int| 0 <= i < self.pairs@.len() implies all_le(
                #[trigger] self.pairs@[i]@,
                VAL_BOUND as int,
            ) by {
                if i < self.pairs@.len() - 1 {
                    assert(self.pairs@[i] == old(self).pairs@[i]);
                }
            }
            assert forall|i: int| 0 <= i < self.pairs@.len() implies (
            #[trigger] self.pairs@[i]@).len() == 2 by {
                if i < self.pairs@.len() - 1 {
                    assert(self.pairs@[i] == old(self).pairs@[i]);
                }
            }
        }
        let over: bool = (now as i128 - self.epoch_start as i128) > self.epoch_len as i128;
        if over {
            proof {
                lemma_column_bounded(self.pairs@, 0);
                lemma_column_bounded(self.pairs@, 1);
                lemma_column_len(self.pairs@, 0);
                lemma_column_len(self.pairs@, 1);
            }
            let c0: Vec<i64> = crate::util::column_vec(&self.pairs, 0);
            let c1: Vec<i64> = crate::util::column_vec(&self.pairs, 1);
            let avg: (i64, i64) = match average_vec(&self.pairs) {
                Some(a) => a,
                None => {
                    proof {
                        assert(column(self.pairs@, 0).len() > 0) by {
                            assert(self.pairs@.last()@.len() == 2);
                        }
                        assert(false);
                    }
                    (0, 0)
                },
            };
            let sds: (i64, i64) = match std_dev(c0.as_slice(), c1.as_slice()) {
                Some(sd) => sd,
                None => {
                    proof {
                        assert(false);
                    }
                    (0, 0)
                },
            };
            self.published = EpochStats {
                mean0: avg.0,
                mean1: avg.1,
                std0: sds.0,
                std1: sds.1,
                epoch_end: now,
            };
            self.pairs.clear();
            self.epoch_start = now;
            proof {
                assert(self@ =~= epoch_step(old(self)@, now, v0, v1));
            }
        } else {
            proof {
                assert(self@ =~= epoch_step(old(self)@, now, v0, v1));
            }
        }
    }
}

} // verus!
