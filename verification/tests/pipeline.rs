use rasa::SCALE;
use rasa::epoch::EpochAccumulator;
use rasa::measurements::Measurement;
use rasa::ornstein::OrnsteinUhlenbeck;
use rasa::replay::run_replay;
use rasa::session::StreamSession;
use rasa::session::overlay_rect;
use rasa::session::test_tick;
use rasa::stim::qualifies_for_stimulation;
use rasa::threadedchannel::deque_channel;
use rasa::trigger::Decision;
use rasa::trigger::TriggerConfig;
use rasa::trigger::TriggerState;

fn reference_config() -> TriggerConfig {
    TriggerConfig {
        threshold: 300 * SCALE,
        cooldown: 16 * SCALE,
        sigma0: 3_700_000,
        max_sigma: 5_500_000,
        sigma_inc: 50_000,
        history_capacity: 1024,
    }
}

#[test]
fn bounded_channel_keeps_last_capacity_values() {
    let mut ch = deque_channel(3);
    for v in 1..=5i64 {
        ch.send(v);
    }
    assert_eq!(ch.snapshot(), vec![3, 4, 5]);
}

#[test]
fn bounded_channel_delivery_path_is_lossless() {
    let mut ch = deque_channel(2);
    for v in 1..=4i64 {
        ch.send(v);
    }
    assert_eq!(ch.recv(), Some(1));
    assert_eq!(ch.recv(), Some(2));
    assert_eq!(ch.recv(), Some(3));
    assert_eq!(ch.recv(), Some(4));
    assert_eq!(ch.recv(), None);
    assert_eq!(ch.snapshot(), vec![3, 4]);
}

#[test]
fn epoch_stats_of_three_pairs() {
    // pairs (1, 2), (3, 4), (5, 6): means (3, 4), population std
    // sqrt(8/3) for both channels, all in fixed-point ticks
    let mut acc = EpochAccumulator::new(0, SCALE);
    acc.observe(0, 1 * SCALE, 2 * SCALE);
    acc.observe(500_000, 3 * SCALE, 4 * SCALE);
    acc.observe(1_500_001, 5 * SCALE, 6 * SCALE);
    assert_eq!(acc.published.mean0, 3 * SCALE);
    assert_eq!(acc.published.mean1, 4 * SCALE);
    assert_eq!(acc.published.std0, 1_632_993);
    assert_eq!(acc.published.std1, 1_632_993);
    assert_eq!(acc.published.epoch_end, 1_500_001);
    assert_eq!(acc.pairs.len(), 0);
}

#[test]
fn epoch_publishes_with_one_epoch_lag() {
    let mut acc = EpochAccumulator::new(0, SCALE);
    acc.observe(100, 7 * SCALE, 9 * SCALE);
    // still inside the first epoch: nothing published yet
    assert_eq!(acc.published.mean0, 0);
    acc.observe(1_000_001, 7 * SCALE, 9 * SCALE);
    // the epoch closed: its stats are what later ticks read
    assert_eq!(acc.published.mean0, 7 * SCALE);
    assert_eq!(acc.published.mean1, 9 * SCALE);
    assert_eq!(acc.published.std0, 0);
}

#[test]
fn trigger_sequence() {
    let mut t = TriggerState::new(reference_config());

    // above threshold while unarmed: cannot administer, nothing fires
    let d1 = t.decide(400 * SCALE, 0);
    assert_eq!(d1, Decision::CannotAdminister);
    assert!(!t.is_armed());

    // debounced arming edge: two baseline samples in a row
    t.observe_sync_edge(0);
    assert!(!t.is_armed());
    t.observe_sync_edge(0);
    assert!(t.is_armed());

    // armed and ready: the next above-threshold score fires one pulse
    let d2 = t.decide(500 * SCALE, 1 * SCALE);
    assert_eq!(d2, Decision::Fire { sigma: 3_750_000, z: 1_000_000 });

    // before cooldown expiry nothing fires
    let d3 = t.decide(600 * SCALE, 2 * SCALE);
    assert_eq!(d3, Decision::Cooldown { z: 1_224_744 });

    // after the cooldown elapses it fires again, sigma one step higher
    let d4 = t.decide(700 * SCALE, 18 * SCALE);
    assert_eq!(d4, Decision::Fire { sigma: 3_800_000, z: 1_341_640 });
}

#[test]
fn trigger_below_threshold_is_a_no_op() {
    let mut t = TriggerState::new(reference_config());
    assert_eq!(t.decide(100 * SCALE, 0), Decision::NoOp);
    t.observe_sync_edge(0);
    t.observe_sync_edge(0);
    assert_eq!(t.decide(300 * SCALE, 1), Decision::NoOp);
}

#[test]
fn trigger_sigma_is_capped() {
    let mut cfg = reference_config();
    cfg.sigma0 = 5_480_000;
    let mut t = TriggerState::new(cfg);
    t.observe_sync_edge(0);
    t.observe_sync_edge(0);
    t.decide(400 * SCALE, 0);
    let d = t.decide(500 * SCALE, 1 * SCALE);
    assert_eq!(d, Decision::Fire { sigma: 5_500_000, z: 1_000_000 });
}

#[test]
fn trigger_insufficient_history_suppresses_decision() {
    let mut t = TriggerState::new(reference_config());
    t.observe_sync_edge(0);
    t.observe_sync_edge(0);
    // only one recorded score: the z-score is undefined
    assert_eq!(t.decide(400 * SCALE, 0), Decision::InsufficientHistory);
    // equal scores: zero spread, still undefined
    assert_eq!(t.decide(400 * SCALE, 1), Decision::InsufficientHistory);
}

#[test]
fn trigger_arming_needs_consecutive_baseline() {
    let mut t = TriggerState::new(reference_config());
    t.observe_sync_edge(0);
    t.observe_sync_edge(2 * SCALE);
    t.observe_sync_edge(0);
    // baseline, spike, baseline: the single samples never arm it
    assert!(!t.is_armed());
    t.observe_sync_edge(0);
    assert!(t.is_armed());
}

#[test]
fn replay_is_deterministic() {
    let y0s: Vec<i64> = (0..200).map(|i| (i % 17) * SCALE).collect();
    let y1s: Vec<i64> = (0..200).map(|i| (i % 11) * SCALE).collect();
    let a = run_replay(&y0s, &y1s, 40, 64, SCALE, reference_config());
    let b = run_replay(&y0s, &y1s, 40, 64, SCALE, reference_config());
    assert_eq!(a, b);
    assert!(a.len() > 0);
}

#[test]
fn session_decimates_into_feature_channels() {
    let mut s = StreamSession::new(2, 0, 3, 0, SCALE);
    let p = s.ingest(0, 10, 20);
    assert_eq!(p.p0, Measurement::new(0, 10));
    assert_eq!(p.p1, Measurement::new(0, 20));
    assert_eq!(p.lag0, Measurement::new(-SCALE, 0));
    s.ingest(1, 11, 21);
    s.ingest(2, 12, 22);
    // ticks 0 and 2 were forwarded, tick 1 was decimated away
    assert_eq!(s.chan0.snapshot(), vec![10, 12]);
    assert_eq!(s.chan1.snapshot(), vec![20, 22]);
    assert_eq!(s.chan_time.snapshot(), vec![0, 2]);
    assert_eq!(s.chan0.recv(), Some(10));
    assert_eq!(s.chan0.recv(), Some(12));
    assert_eq!(s.chan0.recv(), None);
}

#[test]
fn test_stream_spikes_every_hundredth_tick() {
    let spike = test_tick(100, 5, 500_000);
    assert_eq!(spike.p0, Measurement::new(5, 2 * SCALE));
    assert_eq!(spike.p1, Measurement::new(5, 4 * SCALE));
    let plain = test_tick(1, 6, 500_000);
    assert_eq!(plain.p0, Measurement::new(6, 500_000));
    assert_eq!(plain.p1, Measurement::new(6, 250_000));
    assert_eq!(plain.lag0, Measurement::new(6, 0));
}

#[test]
fn ornstein_step_reverts_toward_mean() {
    let mut p = OrnsteinUhlenbeck::new(500_000, 500_000, 100_000, 0);
    // no noise: one step of 0.01 pulls x up by theta * mu * dt
    let y = p.step(10_000, 0);
    assert_eq!(y, 2_500);
    assert_eq!(p.x, 2_500);
    // downward noise enters scaled by sigma
    let y2 = p.step(10_000, -1 * SCALE);
    assert_eq!(y2, 2_500 + 2_487 - 100_000);
}

#[test]
fn ornstein_channel_shaping() {
    // the emitted pair is fifty times the process value, and the same
    // signal ten whole units lower
    assert_eq!(
        rasa::ornstein::channel_values(500_000),
        (25 * SCALE, 15 * SCALE)
    );
    assert_eq!(
        rasa::ornstein::channel_values(rasa::VAL_BOUND),
        (rasa::VAL_BOUND, rasa::VAL_BOUND)
    );
}

#[test]
fn overlay_rect_spans_the_feature_window() {
    let values = vec![5, 1, 3];
    let times = vec![10, 20];
    let rect = overlay_rect(&values, &times).unwrap();
    assert_eq!(
        rect,
        vec![
            Measurement::new(20, 5),
            Measurement::new(20, 1),
            Measurement::new(10, 1),
            Measurement::new(10, 5),
        ]
    );
    assert!(overlay_rect(&values, &vec![]).is_none());
}

#[test]
fn stimulation_gate_compares_fraction_below_target() {
    let v0 = [1i64, 2, 3, 10];
    let v1 = [0i64; 4];
    // target is 2 + 1 = 3; two of four samples lie below it
    assert!(qualifies_for_stimulation(&v0, &v1, (2, 0), (1, 0), 400_000));
    assert!(!qualifies_for_stimulation(&v0, &v1, (2, 0), (1, 0), 600_000));
    assert!(!qualifies_for_stimulation(&[], &v1, (2, 0), (1, 0), 400_000));
}
