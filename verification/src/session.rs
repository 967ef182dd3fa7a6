//! Per-tick orchestration shared by every input source: building the
//! uniform four-point tick payload, decimating into the bounded
//! feature channels, and folding raw pairs into the epoch accumulator.
use vstd::prelude::*;

use crate::SCALE;
use crate::VAL_BOUND;
use crate::epoch::EpochAccumulator;
use crate::epoch::EpochStats;
use crate::epoch::epoch_step;
use crate::measurements::Measurement;
use crate::threadedchannel::BoundedChannel;
use crate::threadedchannel::deque_channel;
use crate::threadedchannel::ring_step;
use crate::util::seq_max;
use crate::util::seq_min;

verus! {

/// One tick of any input source: two primary points and the previous
/// epoch's averages as two lagged points.
#[derive(Clone, Copy, PartialEq, Eq, Structural, Debug)]
pub struct TickPayload {
    pub p0: Measurement,
    pub p1: Measurement,
    pub lag0: Measurement,
    pub lag1: Measurement,
}

/// Per-source pipeline state: the tick counter driving decimation, the
/// three bounded feature channels, and the epoch accumulator.
pub struct StreamSession {
    pub ix: u64,
    pub skip: u64,
    pub chan0: BoundedChannel,
    pub chan1: BoundedChannel,
    pub chan_time: BoundedChannel,
    pub epoch: EpochAccumulator,
}

impl StreamSession {
    pub open spec fn wf(&self) -> bool {
        &&& self.skip > 0
        &&& self.chan0.wf()
        &&& self.chan1.wf()
        &&& self.chan_time.wf()
        &&& self.epoch.wf()
    }

    /// A fresh session: empty channels of the given capacity, an empty
    /// epoch starting at `start_time`, and the tick counter at
    /// `start_ix`.
    pub fn new(skip: u64, start_ix: u64, capacity: usize, start_time: i64, epoch_len: i64) -> (s:
        Self)
        requires
            skip > 0,
            capacity > 0,
            0 < epoch_len,
        ensures
            s.wf(),
            s.ix == start_ix,
            s.skip == skip,
            s.chan0.ring@ == Seq::<i64>::empty(),
            s.chan1.ring@ == Seq::<i64>::empty(),
            s.chan_time.ring@ == Seq::<i64>::empty(),
            s.chan0.pending@ == Seq::<i64>::empty(),
            s.chan1.pending@ == Seq::<i64>::empty(),
            s.chan_time.pending@ == Seq::<i64>::empty(),
            s.chan0.capacity == capacity,
            s.chan1.capacity == capacity,
            s.chan_time.capacity == capacity,
            s.epoch@.c0 == Seq::<i64>::empty(),
            s.epoch@.c1 == Seq::<i64>::empty(),
            s.epoch@.epoch_start == start_time,
            s.epoch@.epoch_len == epoch_len,
            s.epoch@.published == (EpochStats {
                mean0: 0,
                mean1: 0,
                std0: 0,
                std1: 0,
                epoch_end: 0,
            }),
    {
        StreamSession {
            ix: start_ix,
            skip,
            chan0: deque_channel(capacity),
            chan1: deque_channel(capacity),
            chan_time: deque_channel(capacity),
            epoch: EpochAccumulator::new(start_time, epoch_len),
        }
    }

    /// Folds one tick in: always builds the visualization payload and
    /// feeds the epoch accumulator; at the decimation interval the
    /// pair and its timestamp also enter the bounded feature channels.
    pub fn ingest(&mut self, elapsed: i64, y0: i64, y1: i64) -> (p: TickPayload)
        requires
            old(self).wf(),
            -VAL_BOUND <= y0 <= VAL_BOUND,
            -VAL_BOUND <= y1 <= VAL_BOUND,
            0 <= elapsed,
            old(self).ix < u64::MAX,
            old(self).epoch.pairs@.len() + 1 < 0x1_0000_0000,
        ensures
            final (self).wf(),
            final (self).skip == old(self).skip,
            final (self).ix == old(self).ix + 1,
            final (self).epoch@ == epoch_step(old(self).epoch@, elapsed, y0, y1),
            final (self).epoch.pairs@.len() <= old(self).epoch.pairs@.len() + 1,
            p.p0 == (Measurement { x: elapsed, y: y0 }),
            p.p1 == (Measurement { x: elapsed, y: y1 }),
            p.lag0 == (Measurement {
                x: (elapsed - old(self).epoch.epoch_len) as i64,
                y: old(self).epoch.published.mean0,
            }),
            p.lag1 == (Measurement {
                x: (elapsed - old(self).epoch.epoch_len) as i64,
                y: old(self).epoch.published.mean1,
            }),
            final (self).chan0.capacity == old(self).chan0.capacity,
            final (self).chan1.capacity == old(self).chan1.capacity,
            final (self).chan_time.capacity == old(self).chan_time.capacity,
            old(self).ix % old(self).skip == 0 ==> {
                &&& final (self).chan0.ring@ == ring_step(
                    old(self).chan0.ring@,
                    y0,
                    old(self).chan0.capacity as nat,
                )
                &&& final (self).chan1.ring@ == ring_step(
                    old(self).chan1.ring@,
                    y1,
                    old(self).chan1.capacity as nat,
                )
                &&& final (self).chan_time.ring@ == ring_step(
                    old(self).chan_time.ring@,
                    elapsed,
                    old(self).chan_time.capacity as nat,
                )
                &&& final (self).chan0.pending@ == old(self).chan0.pending@.push(y0)
                &&& final (self).chan1.pending@ == old(self).chan1.pending@.push(y1)
                &&& final (self).chan_time.pending@ == old(self).chan_time.pending@.push(elapsed)
            },
            old(self).ix % old(self).skip != 0 ==> {
                &&& final (self).chan0 == old(self).chan0
                &&& final (self).chan1 == old(self).chan1
                &&& final (self).chan_time == old(self).chan_time
            },
    {
        let lag_x: i64 = elapsed - self.epoch.epoch_len;
        let payload = TickPayload {
            p0: Measurement { x: elapsed, y: y0 },
            p1: Measurement { x: elapsed, y: y1 },
            lag0: Measurement { x: lag_x, y: self.epoch.published.mean0 },
            lag1: Measurement { x: lag_x, y: self.epoch.published.mean1 },
        };
        if self.ix % self.skip == 0 {
            self.chan0.send(y0);
            self.chan1.send(y1);
            self.chan_time.send(elapsed);
        }
        self.epoch.observe(elapsed, y0, y1);
        self.ix = self.ix + 1;
        payload
    }
}

/// The synthetic test signal: a sine sample except for a fixed spike
/// of two whole units every hundredth tick.
pub open spec fn test_signal(ix: u64, sine: i64) -> i64 {
    if ix % 100 == 0 {
        (2 * SCALE) as i64
    } else {
        sine
    }
}

/// One tick of the synthetic sine-with-spike source: the caller hands
/// the sine sample for this tick, and the payload carries the signal
/// and its square, with empty lagged points.
pub fn test_tick(ix: u64, elapsed: i64, sine: i64) -> (p: TickPayload)
    requires
        -SCALE <= sine <= SCALE,
    ensures
        p.p0 == (Measurement { x: elapsed, y: test_signal(ix, sine) }),
        p.p1 == (Measurement {
            x: elapsed,
            y: ((test_signal(ix, sine) * test_signal(ix, sine)) / (SCALE as int)) as i64,
        }),
        p.lag0 == (Measurement { x: elapsed, y: 0 }),
        p.lag1 == (Measurement { x: elapsed, y: 0 }),
{
    let y: i64 = if ix % 100 == 0 {
        2 * SCALE
    } else {
        sine
    };
    proof {
        assert(0 <= (y as int) * (y as int) <= 4_000_000_000_000) by (nonlinear_arith)
            requires
                -2_000_000 <= y <= 2_000_000,
        ;
    }
    let sq: i64 = ((((y as i128) * (y as i128)) as u128 / 1_000_000) as i64);
    TickPayload {
        p0: Measurement { x: elapsed, y },
        p1: Measurement { x: elapsed, y: sq },
        lag0: Measurement { x: elapsed, y: 0 },
        lag1: Measurement { x: elapsed, y: 0 },
    }
}

/// The overlay rectangle over the current feature window: the time
/// span of the window against the value span of the second channel
/// (an empty value window spans zero). `None` while the time window
/// is empty.
pub fn overlay_rect(values: &Vec<i64>, times: &Vec<i64>) -> (r: Option<Vec<Measurement>>)
    ensures
        r is Some <==> times@.len() > 0,
        r matches Some(rect) ==> ({
            let lo = if values@.len() == 0 {
                0int
            } else {
                seq_min(values@)
            };
            let hi = if values@.len() == 0 {
                0int
            } else {
                seq_max(values@)
            };
            &&& rect@.len() == 4
            &&& rect@[0] == (Measurement { x: times@.last(), y: hi as i64 })
            &&& rect@[1] == (Measurement { x: times@.last(), y: lo as i64 })
            &&& rect@[2] == (Measurement { x: times@[0], y: lo as i64 })
            &&& rect@[3] == (Measurement { x: times@[0], y: hi as i64 })
        }),
{
    if times.len() == 0 {
        return None;
    }
    let (lo, hi): (i64, i64) = if values.len() == 0 {
        (0, 0)
    } else {
        (crate::util::min_of(values), crate::util::max_of(values))
    };
    let t0: i64 = times[0];
    let t1: i64 = times[times.len() - 1];
    let mut rect: Vec<Measurement> = Vec::new();
    rect.push(Measurement { x: t1, y: hi });
    rect.push(Measurement { x: t1, y: lo });
    rect.push(Measurement { x: t0, y: lo });
    rect.push(Measurement { x: t0, y: hi });
    Some(rect)
}

} // verus!
