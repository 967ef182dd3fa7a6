//! Closed-loop trigger: the safety state machine that gates a hardware
//! stimulation pulse on score threshold, arming, refractory cooldown
//! and escalating intensity.
//!
//! The machine is unarmed until a debounced edge is observed on the
//! synchronization channel, fires at most once per cooldown period,
//! and suppresses any decision whose z-score would be statistically
//! undefined.
use vstd::prelude::*;

use crate::SCALE;
use crate::VAL_BOUND;
use crate::threadedchannel::ring_step;
use crate::util::all_le;
use crate::util::average_vec_deque;
use crate::util::div_tz;
use crate::util::lemma_div_tz_bound;
use crate::util::mean_tz;
use crate::util::pop_variance;
use crate::util::sqrt_floor;
use crate::util::std_dev_vec_deque;

verus! {

/// Fixed operational parameters of the trigger.
#[derive(Clone, Copy, PartialEq, Eq, Structural, Debug)]
pub struct TriggerConfig {
    /// Absolute score threshold a score must exceed.
    pub threshold: i64,
    /// Refractory period between two pulses, in time ticks.
    pub cooldown: i64,
    /// Initial pulse intensity.
    pub sigma0: i64,
    /// Intensity ceiling.
    pub max_sigma: i64,
    /// Intensity step added on every successful firing.
    pub sigma_inc: i64,
    /// Trailing score history capacity for z-scoring.
    pub history_capacity: usize,
}

impl TriggerConfig {
    pub open spec fn wf(&self) -> bool {
        &&& 0 < self.history_capacity <= 0x1_0000_0000
        &&& -VAL_BOUND <= self.threshold <= VAL_BOUND
        &&& 0 <= self.cooldown
        &&& 0 <= self.sigma0 <= self.max_sigma <= VAL_BOUND
        &&& 0 <= self.sigma_inc <= VAL_BOUND
    }
}

/// Outcome of one scorer result.
#[derive(Clone, Copy, PartialEq, Eq, Structural, Debug)]
pub enum Decision {
    /// Score at or below the threshold: nothing to do.
    NoOp,
    /// Too few scores recorded, or zero spread: the z-score is
    /// undefined, so no decision is taken.
    InsufficientHistory,
    /// Above threshold but unarmed: stimulation cannot be administered.
    CannotAdminister,
    /// Above threshold but still inside the refractory period.
    Cooldown { z: i64 },
    /// Fire one pulse at the given intensity.
    Fire { sigma: i64, z: i64 },
}

/// Mathematical model of the trigger state.
#[verifier::ext_equal]
pub struct TriggerModel {
    pub config: TriggerConfig,
    pub armed: bool,
    pub last_sync: i64,
    pub last_fired: Option<i64>,
    pub sigma: i64,
    pub history: Seq<i64>,
}

/// A synchronization sample at the channel's resting level.
pub open spec fn is_baseline(v: int) -> bool {
    -(SCALE as int) < v < SCALE as int
}

/// Arming step: the trigger arms, once and for all, when a baseline
/// sample follows a baseline sample while still unarmed; otherwise the
/// sample is recorded for the next debounce check.
pub open spec fn sync_step(m: TriggerModel, value: i64) -> TriggerModel {
    if is_baseline(value as int) && is_baseline(m.last_sync as int) && !m.armed {
        TriggerModel { armed: true, ..m }
    } else {
        TriggerModel { last_sync: value, ..m }
    }
}

/// Whether the refractory period has elapsed (a trigger that never
/// fired is ready).
pub open spec fn ready_at(last_fired: Option<i64>, now: i64, cooldown: i64) -> bool {
    match last_fired {
        Option::None => true,
        Option::Some(t) => now - t >= cooldown,
    }
}

/// Intensity after a successful firing: one step up, capped.
pub open spec fn capped_sigma(m: TriggerModel) -> i64 {
    if m.sigma + m.config.sigma_inc <= m.config.max_sigma {
        (m.sigma + m.config.sigma_inc) as i64
    } else {
        m.config.max_sigma
    }
}

/// Z-score of `score` against a recorded history: deviation from the
/// running mean in units of the running standard deviation, in
/// fixed-point ticks. Meaningful when the history holds at least two
/// scores with non-zero spread.
pub open spec fn zscore_of(h: Seq<i64>, score: i64) -> int {
    div_tz((score - mean_tz(h)) * (SCALE as int), sqrt_floor(pop_variance(h)))
}

/// Whether this scorer result fires a pulse.
pub open spec fn fires(m: TriggerModel, score: i64, now: i64) -> bool {
    let h = ring_step(m.history, score, m.config.history_capacity as nat);
    &&& score > m.config.threshold
    &&& m.armed
    &&& h.len() >= 2
    &&& sqrt_floor(pop_variance(h)) > 0
    &&& ready_at(m.last_fired, now, m.config.cooldown)
}

/// The decision reported for one scorer result.
pub open spec fn trigger_decision(m: TriggerModel, score: i64, now: i64) -> Decision {
    let h = ring_step(m.history, score, m.config.history_capacity as nat);
    if score <= m.config.threshold {
        Decision::NoOp
    } else if !m.armed {
        Decision::CannotAdminister
    } else if h.len() < 2 || sqrt_floor(pop_variance(h)) <= 0 {
        Decision::InsufficientHistory
    } else if !ready_at(m.last_fired, now, m.config.cooldown) {
        Decision::Cooldown { z: zscore_of(h, score) as i64 }
    } else {
        Decision::Fire { sigma: capped_sigma(m), z: zscore_of(h, score) as i64 }
    }
}

/// The state after one scorer result: the score always enters the
/// history; intensity and refractory clock change exactly when a pulse
/// fires.
pub open spec fn trigger_step(m: TriggerModel, score: i64, now: i64) -> TriggerModel {
    let h = ring_step(m.history, score, m.config.history_capacity as nat);
    if fires(m, score, now) {
        TriggerModel {
            history: h,
            sigma: capped_sigma(m),
            last_fired: Option::Some(now),
            ..m
        }
    } else {
        TriggerModel { history: h, ..m }
    }
}

/// The trigger state owned by the analysis loop.
pub struct TriggerState {
    pub config: TriggerConfig,
    pub armed: bool,
    pub last_sync: i64,
    pub last_fired: Option<i64>,
    pub sigma: i64,
    pub history: Vec<i64>,
}

impl View for TriggerState {
    type V = TriggerModel;

    open spec fn view(&self) -> TriggerModel {
        TriggerModel {
            config: self.config,
            armed: self.armed,
            last_sync: self.last_sync,
            last_fired: self.last_fired,
            sigma: self.sigma,
            history: self.history@,
        }
    }
}

impl TriggerState {
    pub open spec fn wf(&self) -> bool {
        &&& self.config.wf()
        &&& self.history@.len() <= self.config.history_capacity
        &&& all_le(self.history@, VAL_BOUND as int)
        &&& self.config.sigma0 <= self.sigma <= self.config.max_sigma
    }

    /// A fresh trigger: unarmed, never fired, at initial intensity,
    /// with an explicitly empty score history (warm-up starts empty).
    pub fn new(config: TriggerConfig) -> (t: Self)
        requires
            config.wf(),
        ensures
            t.wf(),
            t.config == config,
            t.armed == false,
            t.last_sync == SCALE,
            t.last_fired is None,
            t.sigma == config.sigma0,
            t.history@ == Seq::<i64>::empty(),
    {
        TriggerState {
            config,
            armed: false,
            last_sync: SCALE,
            last_fired: None,
            sigma: config.sigma0,
            history: Vec::new(),
        }
    }

    /// Whether the external synchronization signal has armed the
    /// trigger.
    pub fn is_armed(&self) -> (r: bool)
        ensures
            r == self.armed,
    {
        self.armed
    }

    /// Feeds one sample of the synchronization channel through the
    /// debounced arming edge detector. Arming is one-way.
    pub fn observe_sync_edge(&mut self, value: i64)
        ensures
            final (self)@ == sync_step(old(self)@, value),
            old(self).wf() ==> final (self).wf(),
            final (self).armed == (old(self).armed || (is_baseline(value as int) && is_baseline(
                old(self).last_sync as int,
            ))),
    {
        let baseline_now: bool = value > -SCALE && value < SCALE;
        let baseline_prev: bool = self.last_sync > -SCALE && self.last_sync < SCALE;
        if baseline_now && baseline_prev && !self.armed {
            self.armed = true;
        } else {
            self.last_sync = value;
        }
    }

    /// Processes one scorer result at time `now`: records the score in
    /// the trailing history, then decides per the state machine —
    /// below threshold is a no-op; unarmed cannot administer; an
    /// undefined z-score suppresses the decision; inside the
    /// refractory period nothing fires; otherwise one pulse fires and
    /// the intensity steps up, capped.
    pub fn decide(&mut self, score: i64, now: i64) -> (d: Decision)
        requires
            old(self).wf(),
            -VAL_BOUND <= score <= VAL_BOUND,
        ensures
            final (self).wf(),
            final (self)@ == trigger_step(old(self)@, score, now),
            d == trigger_decision(old(self)@, score, now),
    {
        let ghost m0: TriggerModel = self@;
        if self.history.len() >= self.config.history_capacity {
            self.history.remove(0);
            proof {
                assert(self.history@ =~= old(self).history@.drop_first());
            }
        }
        self.history.push(score);
        let ghost h: Seq<i64> = self.history@;
        proof {
            assert(h =~= ring_step(m0.history, score, m0.config.history_capacity as nat));
            assert forall|i: int| 0 <= i < h.len() implies -VAL_BOUND <= #[trigger] h[i]
                <= VAL_BOUND by {
                if i < h.len() - 1 {
                    if old(self).history@.len() >= m0.config.history_capacity {
                        assert(h[i] == old(self).history@[i + 1]);
                    } else {
                        assert(h[i] == old(self).history@[i]);
                    }
                }
            }
        }
        if score <= self.config.threshold {
            proof {
                assert(self@ =~= trigger_step(m0, score, now));
            }
            return Decision::NoOp;
        }
        if !self.armed {
            proof {
                assert(self@ =~= trigger_step(m0, score, now));
            }
            return Decision::CannotAdminister;
        }
        let sd_opt: Option<i64> = std_dev_vec_deque(&self.history);
        let sd: i64 = match sd_opt {
            None => {
                proof {
                    assert(self@ =~= trigger_step(m0, score, now));
                }
                return Decision::InsufficientHistory;
            },
            Some(sd) => sd,
        };
        if sd <= 0 {
            proof {
                assert(self@ =~= trigger_step(m0, score, now));
            }
            return Decision::InsufficientHistory;
        }
        let mean: i64 = match average_vec_deque(&self.history) {
            Some(mm) => mm,
            None => {
                proof {
                    assert(false);
                }
                0
            },
        };
        let num: i128 = (score as i128 - mean as i128) * (SCALE as i128);
        proof {
            assert(-0x2000_0000_0000_0000 <= (score - mean) * (SCALE as int)
                <= 0x2000_0000_0000_0000) by (nonlinear_arith)
                requires
                    -0x200_0000_0000 <= score - mean <= 0x200_0000_0000,
            ;
            assert(1 * 0x2000_0000_0000_0000 <= (sd as int) * 0x2000_0000_0000_0000) by (nonlinear_arith)
                requires
                    1 <= sd,
            ;
            lemma_div_tz_bound(num as int, sd as int, 0x2000_0000_0000_0000);
        }
        let zq: i128 = crate::util::div_i128_tz(num, sd as u128);
        let z: i64 = zq as i64;
        let ready: bool = match self.last_fired {
            None => true,
            Some(t) => now as i128 - t as i128 >= self.config.cooldown as i128,
        };
        if !ready {
            proof {
                assert(self@ =~= trigger_step(m0, score, now));
            }
            return Decision::Cooldown { z };
        }
        let new_sigma: i64 = if self.sigma + self.config.sigma_inc <= self.config.max_sigma {
            self.sigma + self.config.sigma_inc
        } else {
            self.config.max_sigma
        };
        self.sigma = new_sigma;
        self.last_fired = Some(now);
        proof {
            assert(fires(m0, score, now));
            assert(self@ =~= trigger_step(m0, score, now));
        }
        Decision::Fire { sigma: new_sigma, z }
    }
}


/// While unarmed, an above-threshold score cannot administer a pulse:
/// nothing fires, and neither the intensity nor the refractory clock
/// changes.
pub proof fn lemma_unarmed_never_fires(m: TriggerModel, score: i64, now: i64)
    requires
        !m.armed,
    ensures
        !fires(m, score, now),
        trigger_step(m, score, now).sigma == m.sigma,
        trigger_step(m, score, now).last_fired == m.last_fired,
        score > m.config.threshold ==> trigger_decision(m, score, now)
            == Decision::CannotAdminister,
{
}

/// Inside the refractory period nothing fires, whatever the score:
/// the intensity and the refractory clock are untouched.
pub proof fn lemma_cooldown_blocks_firing(m: TriggerModel, score: i64, now: i64, t: i64)
    requires
        m.last_fired == Some(t),
        now - t < m.config.cooldown,
    ensures
        !fires(m, score, now),
        trigger_step(m, score, now).sigma == m.sigma,
        trigger_step(m, score, now).last_fired == m.last_fired,
{
}

/// A firing steps the intensity up by exactly the configured
/// increment, capped at the configured maximum, and restarts the
/// refractory clock.
pub proof fn lemma_fire_steps_sigma(m: TriggerModel, score: i64, now: i64)
    requires
        fires(m, score, now),
        m.sigma <= m.config.max_sigma,
        0 <= m.config.sigma_inc,
    ensures
        trigger_step(m, score, now).sigma == if m.sigma + m.config.sigma_inc
            <= m.config.max_sigma {
            (m.sigma + m.config.sigma_inc) as i64
        } else {
            m.config.max_sigma
        },
        trigger_step(m, score, now).sigma <= m.config.max_sigma,
        trigger_step(m, score, now).last_fired == Some(now),
{
}

/// Arming is one-way: once armed, no synchronization sample and no
/// scorer result disarms the trigger.
pub proof fn lemma_arming_is_one_way(m: TriggerModel, value: i64, score: i64, now: i64)
    requires
        m.armed,
    ensures
        sync_step(m, value).armed,
        trigger_step(m, score, now).armed,
{
}

} // verus!
