//! When a Monte Carlo run stops, and what it has counted by then.

use vstd::prelude::*;

verus! {

/// What one trial contributes: events out of samples.
#[derive(Debug, Clone, Copy, PartialEq, Eq, Structural)]
pub struct Trial {
    /// Events observed.
    pub events: u64,
    /// Samples drawn.
    pub samples: u64,
}

impl Trial {
    /// A single pass or fail.
    pub fn block(failed: bool) -> (t: Trial)
        ensures
            t.events == (if failed {
                1u64
            } else {
                0u64
            }),
            t.samples == 1,
    {
        Trial {
            events: if failed {
                1
            } else {
                0
            },
            samples: 1,
        }
    }

    /// Bit errors out of bits.
    pub fn bits(errors: u64, total: u64) -> (t: Trial)
        ensures
            t.events == errors,
            t.samples == total,
    {
        Trial { events: errors, samples: total }
    }
}

/// Why a run stopped.
#[derive(Debug, Clone, Copy, PartialEq, Eq, Structural)]
pub enum StopReason {
    /// Enough events were observed.
    TargetErrorEvents,
    /// The budget of trials was used up first.
    MaxTrials,
}

/// How long to run.
#[derive(Debug, Clone, Copy, PartialEq, Eq, Structural)]
pub struct MonteCarloConfig {
    /// Stop once this many events have been observed.
    pub target_error_events: u64,
    /// Run at least this many trials.
    pub min_trials: usize,
    /// Never run more trials.
    pub max_trials: usize,
}

impl Default for MonteCarloConfig {
    fn default() -> (c: MonteCarloConfig)
        ensures
            c.target_error_events == 100,
            c.min_trials == 100,
            c.max_trials == 1_000_000,
    {
        MonteCarloConfig { target_error_events: 100, min_trials: 100, max_trials: 1_000_000 }
    }
}

impl MonteCarloConfig {
    /// Sets the number of events to stop at.
    pub fn with_target_error_events(self, events: u64) -> (c: MonteCarloConfig)
        ensures
            c == (MonteCarloConfig { target_error_events: events, ..self }),
    {
        MonteCarloConfig {
            target_error_events: events,
            min_trials: self.min_trials,
            max_trials: self.max_trials,
        }
    }

    /// Sets the largest number of trials.
    pub fn with_max_trials(self, trials: usize) -> (c: MonteCarloConfig)
        ensures
            c == (MonteCarloConfig { max_trials: trials, ..self }),
    {
        MonteCarloConfig {
            target_error_events: self.target_error_events,
            min_trials: self.min_trials,
            max_trials: trials,
        }
    }

    /// Sets the smallest number of trials.
    pub fn with_min_trials(self, trials: usize) -> (c: MonteCarloConfig)
        ensures
            c == (MonteCarloConfig { min_trials: trials, ..self }),
    {
        MonteCarloConfig {
            target_error_events: self.target_error_events,
            min_trials: trials,
            max_trials: self.max_trials,
        }
    }
}

/// The events of all trials.
pub open spec fn total_events(trials: Seq<Trial>) -> nat
    decreases trials.len(),
{
    if trials.len() == 0 {
        0
    } else {
        total_events(trials.drop_last()) + trials.last().events as nat
    }
}

/// The samples of all trials.
pub open spec fn total_samples(trials: Seq<Trial>) -> nat
    decreases trials.len(),
{
    if trials.len() == 0 {
        0
    } else {
        total_samples(trials.drop_last()) + trials.last().samples as nat
    }
}

/// A count that stays at the largest value once it is reached.
pub open spec fn saturated(n: nat) -> u64 {
    if n <= u64::MAX {
        n as u64
    } else {
        u64::MAX
    }
}

/// Enough trials and enough events.
pub open spec fn target_met(cfg: MonteCarloConfig, trials: Seq<Trial>) -> bool {
    trials.len() >= 1 && trials.len() >= cfg.min_trials && saturated(total_events(trials))
        >= cfg.target_error_events
}

/// No shorter run had met the target, and none was beyond the budget.
pub open spec fn could_run(cfg: MonteCarloConfig, trials: Seq<Trial>) -> bool {
    trials.len() <= cfg.max_trials && forall|k: int|
        0 <= k < trials.len() ==> !target_met(cfg, #[trigger] trials.take(k))
}

/// The counts of a run in progress.
pub struct MonteCarloTally {
    cfg: MonteCarloConfig,
    trials: usize,
    events: u64,
    samples: u64,
    done: bool,
    seen: Ghost<Seq<Trial>>,
}

impl MonteCarloTally {
    /// The trials recorded so far.
    pub closed spec fn recorded(&self) -> Seq<Trial> {
        self.seen@
    }

    /// How long to run.
    pub closed spec fn config(&self) -> MonteCarloConfig {
        self.cfg
    }

    /// The counts are those of the trials recorded, and none was recorded
    /// after the run should have stopped.
    pub closed spec fn wf(&self) -> bool {
        &&& self.trials == self.seen@.len()
        &&& self.events == saturated(total_events(self.seen@))
        &&& self.samples == saturated(total_samples(self.seen@))
        &&& self.done == target_met(self.cfg, self.seen@)
        &&& could_run(self.cfg, self.seen@)
    }

    /// What a run in order has.
    pub proof fn lemma_wf(&self)
        requires
            self.wf(),
        ensures
            could_run(self.config(), self.recorded()),
    {
    }

    /// A run without trials.
    pub fn new(cfg: MonteCarloConfig) -> (t: MonteCarloTally)
        ensures
            t.wf(),
            t.config() == cfg,
            t.recorded() == Seq::<Trial>::empty(),
    {
        MonteCarloTally {
            cfg,
            trials: 0,
            events: 0,
            samples: 0,
            done: false,
            seen: Ghost(Seq::empty()),
        }
    }

    /// Whether another trial is wanted.
    pub fn wants_more(&self) -> (b: bool)
        requires
            self.wf(),
        ensures
            b == (self.recorded().len() < self.config().max_trials && !target_met(
                self.config(),
                self.recorded(),
            )),
    {
        self.trials < self.cfg.max_trials && !self.done
    }

    /// Records a trial that was wanted.
    pub fn record(&mut self, t: Trial)
        requires
            old(self).wf(),
            old(self).recorded().len() < old(self).config().max_trials,
            !target_met(old(self).config(), old(self).recorded()),
        ensures
            final(self).wf(),
            final(self).config() == old(self).config(),
            final(self).recorded() == old(self).recorded().push(t),
    {
        let ghost before = self.seen@;
        let ghost after = before.push(t);
        self.events = self.events.saturating_add(t.events);
        self.samples = self.samples.saturating_add(t.samples);
        self.trials = self.trials + 1;
        self.done = self.trials >= self.cfg.min_trials && self.events
            >= self.cfg.target_error_events;
        self.seen = Ghost(after);
        proof {
            assert(after.drop_last() =~= before);
            assert forall|k: int| 0 <= k < after.len() implies !target_met(
                self.cfg,
                #[trigger] after.take(k),
            ) by {
                if k < before.len() {
                    assert(after.take(k) =~= before.take(k));
                } else {
                    assert(after.take(k) =~= before);
                }
            }
        }
    }

    /// Number of trials.
    pub fn trials(&self) -> (n: usize)
        requires
            self.wf(),
        ensures
            n == self.recorded().len(),
    {
        self.trials
    }

    /// Number of events.
    pub fn events(&self) -> (n: u64)
        requires
            self.wf(),
        ensures
            n == saturated(total_events(self.recorded())),
    {
        self.events
    }

    /// Number of samples.
    pub fn samples(&self) -> (n: u64)
        requires
            self.wf(),
        ensures
            n == saturated(total_samples(self.recorded())),
    {
        self.samples
    }

    /// Why the run stops here: the target, or the budget.
    pub fn stop_reason(&self) -> (r: StopReason)
        requires
            self.wf(),
        ensures
            r == (if target_met(self.config(), self.recorded()) {
                StopReason::TargetErrorEvents
            } else {
                StopReason::MaxTrials
            }),
    {
        if self.done {
            StopReason::TargetErrorEvents
        } else {
            StopReason::MaxTrials
        }
    }

    /// Whether the run reached its target.
    pub fn is_converged(&self) -> (b: bool)
        requires
            self.wf(),
        ensures
            b == target_met(self.config(), self.recorded()),
    {
        self.done
    }
}

/// Runs trials until no more is wanted. `trial` makes the trial of each
/// number, counted from zero.
pub fn run<F: Fn(usize) -> Trial>(cfg: &MonteCarloConfig, trial: &F) -> (t: MonteCarloTally)
    requires
        forall|i: usize| call_requires(*trial, (i,)),
    ensures
        t.wf(),
        t.config() == *cfg,
        t.recorded().len() <= cfg.max_trials,
        t.recorded().len() == cfg.max_trials || target_met(*cfg, t.recorded()),
        forall|i: int|
            0 <= i < t.recorded().len() ==> call_ensures(
                *trial,
                (i as usize,),
                #[trigger] t.recorded()[i],
            ),
{
    let mut t: MonteCarloTally = MonteCarloTally::new(*cfg);
    while t.wants_more()
        invariant
            t.wf(),
            t.config() == *cfg,
            t.recorded().len() <= cfg.max_trials,
            forall|i: usize| call_requires(*trial, (i,)),
            forall|i: int|
                0 <= i < t.recorded().len() ==> call_ensures(
                    *trial,
                    (i as usize,),
                    #[trigger] t.recorded()[i],
                ),
        decreases cfg.max_trials - t.recorded().len(),
    {
        let n: usize = t.trials();
        let outcome: Trial = trial(n);
        t.record(outcome);
    }
    t
}

/// A run that wants no more trials has at least the smallest number of them,
/// or the largest; and never more than the largest.
pub proof fn lemma_run_length(cfg: MonteCarloConfig, trials: Seq<Trial>)
    requires
        could_run(cfg, trials),
        trials.len() == cfg.max_trials || target_met(cfg, trials),
    ensures
        trials.len() <= cfg.max_trials,
        trials.len() >= cfg.min_trials || trials.len() == cfg.max_trials,
        trials.len() < cfg.max_trials ==> saturated(total_events(trials)) >= cfg.target_error_events,
{
}

/// Trials count one by one: the events and the samples of two runs add up.
pub proof fn lemma_totals_add(a: Seq<Trial>, b: Seq<Trial>)
    ensures
        total_events(a + b) == total_events(a) + total_events(b),
        total_samples(a + b) == total_samples(a) + total_samples(b),
    decreases b.len(),
{
    if b.len() == 0 {
        assert(a + b =~= a);
    } else {
        lemma_totals_add(a, b.drop_last());
        assert((a + b).drop_last() =~= a + b.drop_last());
    }
}

/// A run goes on only where it has to: whenever it was past the smallest
/// number of trials and another was made, fewer events than the target had
/// been seen.
pub proof fn lemma_went_on(cfg: MonteCarloConfig, trials: Seq<Trial>, k: int)
    requires
        could_run(cfg, trials),
        1 <= k < trials.len(),
        k >= cfg.min_trials,
    ensures
        total_events(trials.take(k)) < cfg.target_error_events,
{
    assert(!target_met(cfg, trials.take(k)));
}

} // verus!
