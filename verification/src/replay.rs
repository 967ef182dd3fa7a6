//! Offline replay of a recorded session: the recorded pairs run
//! through the same decimation, windowing and trigger logic as a live
//! stream, against a deterministic scorer stub, so a recording can be
//! replayed reproducibly.
use vstd::prelude::*;

use crate::VAL_BOUND;
use crate::session::StreamSession;
use crate::threadedchannel::lemma_ring_step_all_le;
use crate::threadedchannel::ring_step;
use crate::trigger::Decision;
use crate::trigger::TriggerConfig;
use crate::trigger::TriggerModel;
use crate::trigger::TriggerState;
use crate::trigger::sync_step;
use crate::trigger::trigger_decision;
use crate::trigger::trigger_step;
use crate::util::all_le;
use crate::util::lemma_mean_bound;
use crate::util::mean_tz;

verus! {

/// The deterministic scorer stub used for offline replay: the mean of
/// the first feature window.
pub open spec fn stub_score(r0: Seq<i64>) -> i64 {
    mean_tz(r0) as i64
}

/// The part of the pipeline state that replay decisions depend on:
/// the first feature ring, the tick counter, and the trigger.
#[verifier::ext_equal]
pub struct ReplayModel {
    pub ring0: Seq<i64>,
    pub ix: u64,
    pub trig: TriggerModel,
}

/// The replay pipeline state before any row, with the trigger already
/// armed by the recorded session-start synchronization edge.
pub open spec fn replay_init(config: TriggerConfig) -> ReplayModel {
    let fresh = TriggerModel {
        config,
        armed: false,
        last_sync: crate::SCALE,
        last_fired: Option::<i64>::None,
        sigma: config.sigma0,
        history: Seq::<i64>::empty(),
    };
    ReplayModel {
        ring0: Seq::<i64>::empty(),
        ix: 0,
        trig: sync_step(sync_step(fresh, 0), 0),
    }
}

/// Folds the first `n` recorded rows through the pipeline: every row
/// advances the tick counter; rows at the decimation interval enter
/// the feature window, are scored by the stub, and yield one trigger
/// decision.
pub open spec fn replay_fold(y0s: Seq<i64>, n: int, init: ReplayModel, skip: u64, cap: nat) -> (
    ReplayModel,
    Seq<Decision>,
)
    decreases n,
{
    if n <= 0 {
        (init, Seq::<Decision>::empty())
    } else {
        let (m, ds) = replay_fold(y0s, n - 1, init, skip, cap);
        let elapsed = (n - 1) as i64;
        let y0 = y0s[n - 1];
        if m.ix % skip == 0 {
            let r0 = ring_step(m.ring0, y0, cap);
            let score = stub_score(r0);
            let m2 = ReplayModel {
                ring0: r0,
                ix: (m.ix + 1) as u64,
                trig: trigger_step(m.trig, score, elapsed),
            };
            (m2, ds + seq![trigger_decision(m.trig, score, elapsed)])
        } else {
            let m2 = ReplayModel { ix: (m.ix + 1) as u64, ..m };
            (m2, ds)
        }
    }
}

/// Replays recorded channel pairs through the full pipeline with the
/// deterministic scorer stub and returns the decision sequence, which
/// is a function of the recorded rows and the fixed parameters alone.
#[verifier::loop_isolation(false)]
pub fn run_replay(
    y0s: &Vec<i64>,
    y1s: &Vec<i64>,
    skip: u64,
    capacity: usize,
    epoch_len: i64,
    config: TriggerConfig,
) -> (ds: Vec<Decision>)
    requires
        y0s@.len() == y1s@.len(),
        y0s@.len() < 0x100_0000,
        all_le(y0s@, VAL_BOUND as int),
        all_le(y1s@, VAL_BOUND as int),
        skip > 0,
        capacity > 0,
        0 < epoch_len,
        config.wf(),
    ensures
        ds@ == replay_fold(y0s@, y0s@.len() as int, replay_init(config), skip, capacity as nat).1,
{
    let mut trig: TriggerState = TriggerState::new(config);
    trig.observe_sync_edge(0);
    trig.observe_sync_edge(0);
    let mut session: StreamSession = StreamSession::new(skip, 0, capacity, 0, epoch_len);
    let mut ds: Vec<Decision> = Vec::new();
    let n: usize = y0s.len();
    let mut i: usize = 0;
    while i < n
        invariant
            i <= n,
            session.wf(),
            trig.wf(),
            session.skip == skip,
            session.chan0.capacity == capacity,
            session.epoch.pairs@.len() <= i,
            all_le(session.chan0.ring@, VAL_BOUND as int),
            session.chan0.ring@ == replay_fold(
                y0s@,
                i as int,
                replay_init(config),
                skip,
                capacity as nat,
            ).0.ring0,
            session.ix == replay_fold(
                y0s@,
                i as int,
                replay_init(config),
                skip,
                capacity as nat,
            ).0.ix,
            trig@ == replay_fold(y0s@, i as int, replay_init(config), skip, capacity as nat).0.trig,
            ds@ == replay_fold(y0s@, i as int, replay_init(config), skip, capacity as nat).1,
            session.ix == i,
        decreases n - i,
    {
        let ghost pre = replay_fold(y0s@, i as int, replay_init(config), skip, capacity as nat);
        let forwarded: bool = session.ix % session.skip == 0;
        let elapsed: i64 = i as i64;
        let _payload = session.ingest(elapsed, y0s[i], y1s[i]);
        if forwarded {
            proof {
                lemma_ring_step_all_le(
                    pre.0.ring0,
                    y0s@[i as int],
                    capacity as nat,
                    VAL_BOUND as int,
                );
            }
            let snap: Vec<i64> = session.chan0.snapshot();
            let score: i64 = match crate::util::average_vec_deque(&snap) {
                Some(m) => m,
                None => {
                    proof {
                        assert(false);
                    }
                    0
                },
            };
            proof {
                lemma_mean_bound(snap@, VAL_BOUND as int);
            }
            let d: Decision = trig.decide(score, elapsed);
            ds.push(d);
            proof {
                assert(ds@ =~= pre.1 + seq![trigger_decision(pre.0.trig, score, elapsed)]);
            }
        }
        i = i + 1;
    }
    ds
}

/// The determinism law: the decision sequence of a replay is a pure
/// function of the recorded rows and the fixed parameters, so
/// replaying one recording twice with the deterministic scorer stub
/// yields identical decision sequences.
pub proof fn lemma_replay_deterministic(
    rows_a: Seq<i64>,
    rows_b: Seq<i64>,
    n: int,
    config: TriggerConfig,
    skip: u64,
    cap: nat,
)
    requires
        rows_a == rows_b,
    ensures
        replay_fold(rows_a, n, replay_init(config), skip, cap).1 == replay_fold(
            rows_b,
            n,
            replay_init(config),
            skip,
            cap,
        ).1,
{
}

} // verus!
