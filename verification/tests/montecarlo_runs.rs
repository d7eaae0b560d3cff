//! Runs of trials.

use syndrome::montecarlo::{run as run_trials, MonteCarloConfig, MonteCarloTally, StopReason, Trial};

struct Outcome {
    trials: usize,
    events: u64,
    samples: u64,
    stop_reason: StopReason,
    converged: bool,
    estimate: f64,
}

impl Outcome {
    fn is_converged(&self) -> bool {
        self.converged
    }
}

fn run<F: FnMut(usize) -> Trial>(cfg: &MonteCarloConfig, mut trial: F) -> Outcome {
    let mut tally = MonteCarloTally::new(*cfg);
    while tally.wants_more() {
        let t = trial(tally.trials());
        tally.record(t);
    }
    Outcome {
        trials: tally.trials(),
        events: tally.events(),
        samples: tally.samples(),
        stop_reason: tally.stop_reason(),
        converged: tally.is_converged(),
        estimate: if tally.samples() == 0 {
            0.0
        } else {
            tally.events() as f64 / tally.samples() as f64
        },
    }
}

#[test]
fn min_trials_overrides_an_early_error_target() {
    let cfg = MonteCarloConfig::default()
        .with_target_error_events(5)
        .with_min_trials(500)
        .with_max_trials(10_000);
    let r = run(&cfg, |_| Trial::block(true));
    assert_eq!(r.trials, 500);
    assert_eq!(r.events, 500);
    assert!(r.is_converged());
}

#[test]
fn max_trials_is_a_hard_bound() {
    let cfg = MonteCarloConfig::default()
        .with_target_error_events(u64::MAX)
        .with_min_trials(1)
        .with_max_trials(777);
    let mut calls = 0usize;
    let r = run(&cfg, |_| {
        calls += 1;
        Trial::block(true)
    });
    assert_eq!(calls, 777);
    assert_eq!(r.trials, 777);
    assert_eq!(r.stop_reason, StopReason::MaxTrials);
}

#[test]
fn bit_level_trials_estimate_a_bit_error_rate() {
    let cfg = MonteCarloConfig::default()
        .with_target_error_events(100)
        .with_min_trials(1);
    let r = run(&cfg, |_| Trial::bits(2, 1000));
    assert_eq!(r.trials, 50);
    assert_eq!(r.events, 100);
    assert_eq!(r.samples, 50_000);
    assert!((r.estimate - 0.002).abs() < 1e-12);
}

#[test]
fn a_run_without_events_uses_its_budget() {
    let cfg = MonteCarloConfig::default()
        .with_target_error_events(100)
        .with_min_trials(1)
        .with_max_trials(10_000);
    let r = run(&cfg, |_| Trial::block(false));
    assert_eq!(r.stop_reason, StopReason::MaxTrials);
    assert!(!r.is_converged());
    assert_eq!(r.events, 0);
    assert_eq!(r.estimate, 0.0);
}

#[test]
fn a_run_stops_at_its_target() {
    let cfg = MonteCarloConfig::default()
        .with_target_error_events(3)
        .with_min_trials(1)
        .with_max_trials(100);
    let r = run(&cfg, |i| Trial::block(i % 4 == 3));
    assert_eq!(r.trials, 12);
    assert_eq!(r.events, 3);
    assert_eq!(r.stop_reason, StopReason::TargetErrorEvents);
}

#[test]
fn counts_stop_at_their_largest_value() {
    let cfg = MonteCarloConfig::default()
        .with_target_error_events(u64::MAX)
        .with_min_trials(1)
        .with_max_trials(3);
    let r = run(&cfg, |_| Trial::bits(u64::MAX - 1, u64::MAX));
    assert_eq!(r.trials, 2);
    assert_eq!(r.events, u64::MAX);
    assert_eq!(r.samples, u64::MAX);
}

#[test]
fn trials_are_numbered_from_zero() {
    let cfg = MonteCarloConfig::default()
        .with_target_error_events(2)
        .with_min_trials(5)
        .with_max_trials(40);
    let t = run_trials(&cfg, &|i: usize| Trial::block(i == 1 || i == 9));
    assert_eq!(t.trials(), 10);
    assert_eq!(t.events(), 2);
    assert!(t.is_converged());
}
