//! Mean-reverting stochastic process advanced by a discretized
//! stochastic differential equation. The Gaussian increment is drawn
//! by the caller (it is the one non-deterministic input), so the state
//! update itself is exact fixed-point arithmetic.
use vstd::prelude::*;

use crate::SCALE;
use crate::VAL_BOUND;
use crate::util::div_i128_tz;
use crate::util::div_tz;

verus! {

/// The state change of one step: `theta * (mu - x) * dt` pulls the
/// process back toward its long-run mean, and `sigma * dw` adds the
/// caller-supplied noise increment; every product of fixed-point
/// factors is rescaled by one `SCALE`.
pub open spec fn ou_dx(theta: i64, mu: i64, sigma: i64, x: i64, dt: i64, dw: i64) -> int {
    div_tz(div_tz(theta * (mu - x), SCALE as int) * dt, SCALE as int) + div_tz(
        sigma * dw,
        SCALE as int,
    )
}

/// A value pulled back into the fixed-point range bound.
pub open spec fn saturate(v: int) -> int {
    if v > VAL_BOUND as int {
        VAL_BOUND as int
    } else if v < -VAL_BOUND as int {
        -VAL_BOUND as int
    } else {
        v
    }
}

/// The next state: the increment applied to `x`, saturated at the
/// fixed-point range bound.
pub open spec fn ou_next(theta: i64, mu: i64, sigma: i64, x: i64, dt: i64, dw: i64) -> int {
    saturate(x + ou_dx(theta, mu, sigma, x, dt, dw))
}

/// Mean-reverting process state. `theta` is the reversion rate, `mu`
/// the long-run mean, `sigma` the volatility, `x` the current value,
/// all in fixed-point ticks.
pub struct OrnsteinUhlenbeck {
    pub theta: i64,
    pub mu: i64,
    pub sigma: i64,
    pub x: i64,
}

impl OrnsteinUhlenbeck {
    pub open spec fn wf(&self) -> bool {
        &&& 0 <= self.theta <= SCALE
        &&& -VAL_BOUND <= self.mu <= VAL_BOUND
        &&& 0 <= self.sigma <= VAL_BOUND
        &&& -VAL_BOUND <= self.x <= VAL_BOUND
    }

    pub fn new(theta: i64, mu: i64, sigma: i64, x0: i64) -> (p: Self)
        requires
            0 <= theta <= SCALE,
            -VAL_BOUND <= mu <= VAL_BOUND,
            0 <= sigma <= VAL_BOUND,
            -VAL_BOUND <= x0 <= VAL_BOUND,
        ensures
            p.wf(),
            p.theta == theta,
            p.mu == mu,
            p.sigma == sigma,
            p.x == x0,
    {
        OrnsteinUhlenbeck { theta, mu, sigma, x: x0 }
    }

    /// Advances the process by one step of length `dt` with the noise
    /// increment `dw`, returning the new value.
    pub fn step(&mut self, dt: i64, dw: i64) -> (y: i64)
        requires
            old(self).wf(),
            0 <= dt <= SCALE,
            -VAL_BOUND <= dw <= VAL_BOUND,
        ensures
            final (self).wf(),
            final (self).theta == old(self).theta,
            final (self).mu == old(self).mu,
            final (self).sigma == old(self).sigma,
            final (self).x == ou_next(
                old(self).theta,
                old(self).mu,
                old(self).sigma,
                old(self).x,
                dt,
                dw,
            ),
            y == final (self).x,
    {
        proof {
            assert(-(1_000_000 * 0x200_0000_0000) <= (self.theta as int) * (self.mu - self.x)
                <= 1_000_000 * 0x200_0000_0000) by (nonlinear_arith)
                requires
                    0 <= self.theta <= 1_000_000,
                    -0x200_0000_0000 <= self.mu - self.x <= 0x200_0000_0000,
            ;
        }
        let pull: i128 = (self.theta as i128) * (self.mu as i128 - self.x as i128);
        let t1: i128 = div_i128_tz(pull, 1_000_000);
        proof {
            crate::util::lemma_div_tz_bound(pull as int, SCALE as int, 0x200_0000_0000);
            assert(-(1_000_000 * 0x200_0000_0000) <= (t1 as int) * (dt as int)
                <= 1_000_000 * 0x200_0000_0000) by (nonlinear_arith)
                requires
                    -0x200_0000_0000 <= t1 <= 0x200_0000_0000,
                    0 <= dt <= 1_000_000,
            ;
        }
        let t2: i128 = div_i128_tz(t1 * (dt as i128), 1_000_000);
        proof {
            crate::util::lemma_div_tz_bound(
                (t1 * (dt as int)) as int,
                SCALE as int,
                0x200_0000_0000,
            );
            assert(-0x1_0000_0000_0000_0000_0000 <= (self.sigma as int) * (dw as int)
                <= 0x1_0000_0000_0000_0000_0000) by (nonlinear_arith)
                requires
                    0 <= self.sigma <= 0x100_0000_0000,
                    -0x100_0000_0000 <= dw <= 0x100_0000_0000,
            ;
        }
        let noise_raw: i128 = (self.sigma as i128) * (dw as i128);
        let t3: i128 = div_i128_tz(noise_raw, 1_000_000);
        proof {
            crate::util::lemma_div_tz_bound(
                noise_raw as int,
                SCALE as int,
                0x1_0000_0000_0000_0000_0000,
            );
        }
        let raw: i128 = self.x as i128 + t2 + t3;
        let next: i64 = if raw > VAL_BOUND as i128 {
            VAL_BOUND
        } else if raw < -VAL_BOUND as i128 {
            -VAL_BOUND
        } else {
            raw as i64
        };
        self.x = next;
        next
    }
}


/// The channel pair the synthetic source emits for one process value:
/// the process scaled up fifty-fold, and the same signal ten whole
/// units lower, both saturated at the fixed-point range bound.
pub fn channel_values(x: i64) -> (r: (i64, i64))
    requires
        -VAL_BOUND <= x <= VAL_BOUND,
    ensures
        r.0 == saturate(50 * x),
        r.1 == saturate(50 * x - 10 * SCALE),
{
    let wide: i128 = 50 * (x as i128);
    let y0: i64 = if wide > VAL_BOUND as i128 {
        VAL_BOUND
    } else if wide < -VAL_BOUND as i128 {
        -VAL_BOUND
    } else {
        wide as i64
    };
    let lowered: i128 = wide - 10 * (SCALE as i128);
    let y1: i64 = if lowered > VAL_BOUND as i128 {
        VAL_BOUND
    } else if lowered < -VAL_BOUND as i128 {
        -VAL_BOUND
    } else {
        lowered as i64
    };
    (y0, y1)
}

} // verus!
