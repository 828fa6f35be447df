//! Training: the settings, the state of a run, and the loop of epochs.

use vstd::prelude::*;
use crate::error::SomError;
use crate::fixed::Fixed;
use crate::fixed::SCALE;
use crate::grid::lemma_best_match_unique;
use crate::grid::lemma_index_coordinate_inverse;
use crate::grid::lemma_nudged_wf;
use crate::grid::Grid;
use crate::grid::RectSom;
use crate::kernel::Neighbourhood;
use crate::kernel::NeighbourhoodKernel;
use crate::metric::DistanceMetric;
use crate::random::RandomSource;
use crate::signal::may_go_on;
use std::sync::atomic::AtomicBool;
use std::sync::Arc;

verus! {

/// The settings of a training run.
#[derive(Clone, Debug)]
pub struct TrainConfig {
    /// How far a cell of weight one moves toward a sample: above zero.
    pub train_rate: Fixed,
    /// An epoch is stable when the map moved by less than this: not
    /// negative.
    pub stability_threshold: Fixed,
    /// The number of stable epochs in a row after which the map has
    /// converged.
    pub stability_duration: usize,
    /// The radius of the first epoch: above zero.
    pub initial_radius: Fixed,
    /// The factor by which the radius shrinks after each epoch: above zero
    /// and at most one.
    pub radius_decay: Fixed,
    /// The radius below which it does not shrink, if any: not negative.
    pub min_radius: Option<Fixed>,
    /// The number of epochs after which the run is exhausted.
    pub max_epochs: usize,
    /// The name of the kernel: `gaussian`, `sinc` (also written `sinc_sq`)
    /// or `expon`.
    pub neighbourhood: String,
}

/// The state of a training run.
#[derive(Clone, Copy, Debug, PartialEq, Eq, Structural)]
pub struct RunState {
    /// The number of epochs done.
    pub epoch: usize,
    /// The radius of the next epoch.
    pub radius: Fixed,
    /// The number of stable epochs in a row, up to now.
    pub stability: usize,
}

/// Why a training run ended.
#[derive(Clone, Copy, Debug, PartialEq, Eq, Structural)]
pub enum Halt {
    /// The map was stable for the configured number of epochs.
    Converged,
    /// The configured number of epochs was done.
    Exhausted,
    /// A stop was requested.
    Cancelled,
}

/// How a training run ended: why, and in which state.
#[derive(Clone, Copy, Debug, PartialEq, Eq, Structural)]
pub struct TrainReport {
    pub halt: Halt,
    pub state: RunState,
}

impl TrainConfig {
    /// The numbers of the configuration are in their ranges.
    pub open spec fn valid_numbers(&self) -> bool {
        &&& self.train_rate.raw > 0
        &&& self.stability_threshold.raw >= 0
        &&& self.initial_radius.raw > 0
        &&& 0 < self.radius_decay.raw <= SCALE
        &&& self.min_radius matches Some(min) ==> min.raw >= 0
    }

    /// The numbers are in their ranges and the kernel's name is known.
    pub open spec fn valid(&self) -> bool {
        self.valid_numbers() && Neighbourhood::named(self.neighbourhood@) is Some
    }

    /// The radius that follows `radius`: its product with the decay, or
    /// the least radius where the product is below that.
    pub open spec fn decayed(&self, radius: Fixed) -> Fixed {
        let next = radius.product(self.radius_decay);
        match self.min_radius {
            Some(min) => if next.raw < min.raw {
                min
            } else {
                next
            },
            None => next,
        }
    }

    /// The radius after `n` epochs.
    pub open spec fn radius_after(&self, n: nat) -> Fixed
        decreases n,
    {
        if n == 0 {
            self.initial_radius
        } else {
            self.decayed(self.radius_after((n - 1) as nat))
        }
    }

    /// Tells whether the numbers of the configuration are in their ranges.
    pub fn has_valid_numbers(&self) -> (ok: bool)
        ensures
            ok == self.valid_numbers(),
    {
        let min_ok: bool = match self.min_radius {
            Some(min) => min.raw >= 0,
            None => true,
        };
        self.train_rate.raw > 0 && self.stability_threshold.raw >= 0 && self.initial_radius.raw > 0
            && 0 < self.radius_decay.raw && self.radius_decay.raw <= SCALE && min_ok
    }

    /// The kernel that the configuration names, or `Configuration` where a
    /// number is out of its range or the name is not a kernel's.
    pub fn check(&self) -> (r: Result<Neighbourhood, SomError>)
        ensures
            match r {
                Ok(kernel) => self.valid() && Neighbourhood::named(self.neighbourhood@) == Some(kernel),
                Err(e) => e == SomError::Configuration && !self.valid(),
            },
    {
        if !self.has_valid_numbers() {
            return Err(SomError::Configuration);
        }
        match Neighbourhood::from_name(&self.neighbourhood) {
            Some(kernel) => Ok(kernel),
            None => Err(SomError::Configuration),
        }
    }

    /// The radius that follows `radius`.
    pub fn decay(&self, radius: Fixed) -> (r: Fixed)
        ensures
            r == self.decayed(radius),
    {
        let next: Fixed = radius.sat_mul(self.radius_decay);
        match self.min_radius {
            Some(min) => if next.raw < min.raw {
                min
            } else {
                next
            },
            None => next,
        }
    }
}

impl RunState {
    /// The state in which a run starts.
    pub open spec fn initial(conf: TrainConfig) -> RunState {
        RunState { epoch: 0, radius: conf.initial_radius, stability: 0 }
    }

    /// Why a run in this state ends before another epoch, if it does:
    /// because a stop was requested; else because the epochs are used up;
    /// else because the map has been stable for long enough.
    pub open spec fn verdict(self, conf: TrainConfig, cancelled: bool) -> Option<Halt> {
        if cancelled {
            Some(Halt::Cancelled)
        } else if self.epoch >= conf.max_epochs {
            Some(Halt::Exhausted)
        } else if self.stability >= conf.stability_duration {
            Some(Halt::Converged)
        } else {
            None
        }
    }

    /// The state after an epoch in which the map moved by `shift`: one
    /// more epoch, the radius decayed, and one more stable epoch where
    /// `shift` is below the threshold, else none.
    pub open spec fn after_epoch(self, conf: TrainConfig, shift: Fixed) -> RunState {
        RunState {
            epoch: (self.epoch + 1) as usize,
            radius: conf.decayed(self.radius),
            stability: if shift.raw < conf.stability_threshold.raw {
                (self.stability + 1) as usize
            } else {
                0
            },
        }
    }

    /// The state in which a run with `conf` starts.
    pub fn start(conf: &TrainConfig) -> (s: RunState)
        ensures
            s == RunState::initial(*conf),
    {
        RunState { epoch: 0, radius: conf.initial_radius, stability: 0 }
    }

    /// Decides, before an epoch, whether the run ends, and why. A run that
    /// is told to stop ends as cancelled, whatever its state, and the state
    /// stays as it is.
    pub fn next_step(&self, conf: &TrainConfig, cancelled: bool) -> (r: Option<Halt>)
        ensures
            r == self.verdict(*conf, cancelled),
            cancelled ==> r == Some(Halt::Cancelled),
    {
        if cancelled {
            Some(Halt::Cancelled)
        } else if self.epoch >= conf.max_epochs {
            Some(Halt::Exhausted)
        } else if self.stability >= conf.stability_duration {
            Some(Halt::Converged)
        } else {
            None
        }
    }

    /// Takes the state over an epoch in which the map moved by `shift`.
    pub fn advance(&mut self, conf: &TrainConfig, shift: Fixed)
        requires
            old(self).epoch < usize::MAX,
            old(self).stability < usize::MAX,
        ensures
            *final(self) == old(self).after_epoch(*conf, shift),
    {
        self.epoch = self.epoch + 1;
        if shift.raw < conf.stability_threshold.raw {
            self.stability = self.stability + 1;
        } else {
            self.stability = 0;
        }
        self.radius = conf.decay(self.radius);
    }
}

/// A map in training: its cells and the state of the run.
pub struct Run {
    pub grid: Grid,
    pub state: RunState,
}

/// One epoch on the sample `example`: the cells move toward the sample, by
/// their offsets from the cell that matches it best, and the state is taken
/// over the epoch by how far they moved.
pub open spec fn run_epoch<M: DistanceMetric, K: NeighbourhoodKernel>(run: Run, metric: M, kernel: K, conf: TrainConfig, example: Seq<Fixed>) -> Run {
    let at = run.grid.coordinate_of(run.grid.best_match(metric, example));
    Run {
        grid: run.grid.nudged(kernel, at, run.state.radius, example, conf.train_rate),
        state: run.state.after_epoch(
            conf,
            run.grid.mean_shift(kernel, at, run.state.radius, example, conf.train_rate),
        ),
    }
}

/// One epoch for each sample of `draws`, in their order.
pub open spec fn run_epochs<M: DistanceMetric, K: NeighbourhoodKernel>(start: Run, metric: M, kernel: K, conf: TrainConfig, draws: Seq<Seq<Fixed>>) -> Run
    decreases draws.len(),
{
    if draws.len() == 0 {
        start
    } else {
        run_epoch(
            run_epochs(start, metric, kernel, conf, draws.drop_last()),
            metric,
            kernel,
            conf,
            draws.last(),
        )
    }
}

/// `sample` is one of `examples`.
pub open spec fn is_sample(examples: Seq<Vec<Fixed>>, sample: Seq<Fixed>) -> bool {
    exists|i: int| 0 <= i < examples.len() && (#[trigger] examples[i])@ == sample
}

/// `draws` is a course that training from `start` can take: each draw is
/// one of `examples` and has the map's number of components, and before
/// each draw the run was neither exhausted nor converged.
pub open spec fn is_course<M: DistanceMetric, K: NeighbourhoodKernel>(start: Run, metric: M, kernel: K, conf: TrainConfig, examples: Seq<Vec<Fixed>>, draws: Seq<Seq<Fixed>>) -> bool
    decreases draws.len(),
{
    if draws.len() == 0 {
        true
    } else {
        &&& is_course(start, metric, kernel, conf, examples, draws.drop_last())
        &&& run_epochs(start, metric, kernel, conf, draws.drop_last()).state.verdict(conf, false) is None
        &&& is_sample(examples, draws.last())
        &&& draws.last().len() == start.grid.dim()
    }
}

/// Training from `start` can take the course `draws`, and ends in `end`.
pub open spec fn ends_in<M: DistanceMetric, K: NeighbourhoodKernel>(start: Run, end: Run, metric: M, kernel: K, conf: TrainConfig, examples: Seq<Vec<Fixed>>, draws: Seq<Seq<Fixed>>) -> bool {
    is_course(start, metric, kernel, conf, examples, draws) && end == run_epochs(
        start,
        metric,
        kernel,
        conf,
        draws,
    )
}

/// One epoch of training on the sample `example`: finds the cell that
/// matches it best, moves the cells toward it and takes the state over the
/// epoch. `DimensionMismatch`, with map and state unchanged, where the
/// sample has not the map's number of components.
pub fn train_epoch<M: DistanceMetric, K: NeighbourhoodKernel>(
    som: &mut RectSom,
    state: &mut RunState,
    example: &[Fixed],
    metric: &M,
    kernel: &K,
    conf: &TrainConfig,
) -> (r: Result<(), SomError>)
    requires
        old(som)@.wf(),
        old(state).epoch < usize::MAX,
        old(state).stability < usize::MAX,
    ensures
        final(som)@.wf(),
        final(som)@.dim() == old(som)@.dim(),
        match r {
            Ok(_) => example@.len() == old(som)@.dim() && (Run {
                grid: final(som)@,
                state: *final(state),
            }) == run_epoch(
                (Run { grid: old(som)@, state: *old(state) }),
                *metric,
                *kernel,
                *conf,
                example@,
            ),
            Err(e) => e == SomError::DimensionMismatch && example@.len() != old(som)@.dim()
                && final(som)@ == old(som)@ && *final(state) == *old(state),
        },
{
    let at: (usize, usize) = match som.best_fitting_unit(example, metric) {
        Ok(c) => c,
        Err(e) => {
            return Err(e);
        },
    };
    proof {
        let g = som@;
        let idx = g.linear_index_of(at.0 as int, at.1 as int);
        lemma_best_match_unique(g, *metric, example@, idx, g.best_match(*metric, example@));
        lemma_index_coordinate_inverse(g, 0, at.0 as int, at.1 as int);
        lemma_nudged_wf(g, *kernel, (at.0 as int, at.1 as int), state.radius, example@, conf.train_rate);
    }
    let shift: Fixed = match som.nudge_weights(at, state.radius, example, kernel, conf.train_rate) {
        Ok(m) => m,
        Err(e) => {
            return Err(e);
        },
    };
    state.advance(conf, shift);
    Ok(())
}

/// What holds of a run of training on `examples` that began with the cells
/// `before` and left the cells `after`, whatever the samples drawn: it took
/// some course of draws from the initial state, and
/// - where it ended with a report, the report's state and `after` are what
///   that course leads to, with the radius decayed once for each epoch;
///   unless a stop was requested, the run ended for the reason which that
///   state gives, and never went past the configured epochs or stable
///   epochs;
/// - where it ended with `DimensionMismatch`, `after` is what that course
///   leads to and some example has not the map's number of components.
pub open spec fn is_outcome<M: DistanceMetric, K: NeighbourhoodKernel>(before: Grid, after: Grid, r: Result<TrainReport, SomError>, metric: M, kernel: K, conf: TrainConfig, examples: Seq<Vec<Fixed>>) -> bool {
    let start = Run { grid: before, state: RunState::initial(conf) };
    match r {
        Ok(report) => {
            &&& exists|draws: Seq<Seq<Fixed>>| #[trigger]
                ends_in(start, (Run { grid: after, state: report.state }), metric, kernel, conf, examples, draws)
                    && draws.len() == report.state.epoch
            &&& report.halt != Halt::Cancelled ==> report.state.verdict(conf, false) == Some(report.halt)
            &&& report.state.epoch <= conf.max_epochs
            &&& report.state.stability <= conf.stability_duration
            &&& report.state.radius == conf.radius_after(report.state.epoch as nat)
            &&& report.halt == Halt::Exhausted ==> report.state.epoch == conf.max_epochs
            &&& report.halt == Halt::Converged ==> report.state.stability == conf.stability_duration
        },
        Err(e) => {
            &&& e == SomError::DimensionMismatch
            &&& exists|i: int| 0 <= i < examples.len() && (#[trigger] examples[i])@.len() != before.dim()
            &&& exists|draws: Seq<Seq<Fixed>>| #[trigger]
                is_course(start, metric, kernel, conf, examples, draws) && after == run_epochs(
                    start,
                    metric,
                    kernel,
                    conf,
                    draws,
                ).grid
        },
    }
}

/// Trains `som` on `examples` with the kernel `kernel`. Before each epoch
/// the run ends as cancelled where `stop_flag` reads `false`, else as
/// exhausted after `max_epochs` epochs, else as converged after
/// `stability_duration` stable epochs in a row. An epoch draws one example
/// from `rng` and is that of `train_epoch`.
///
/// `Configuration`, with the map unchanged, where a number of `conf` is out
/// of its range or there is no example; `DimensionMismatch` as soon as an
/// example is drawn that has not the map's number of components.
pub fn train_with<R: RandomSource, M: DistanceMetric, K: NeighbourhoodKernel>(
    examples: &[Vec<Fixed>],
    som: &mut RectSom,
    metric: &M,
    kernel: &K,
    rng: &mut R,
    conf: &TrainConfig,
    stop_flag: &AtomicBool,
) -> (r: Result<TrainReport, SomError>)
    requires
        old(som)@.wf(),
    ensures
        final(som)@.wf(),
        final(som)@.width == old(som)@.width,
        final(som)@.height == old(som)@.height,
        final(som)@.dim() == old(som)@.dim(),
        r == Err::<TrainReport, SomError>(SomError::Configuration) <==> !conf.valid_numbers()
            || examples@.len() == 0,
        r == Err::<TrainReport, SomError>(SomError::Configuration) ==> final(som)@ == old(som)@,
        r != Err::<TrainReport, SomError>(SomError::Configuration) ==> is_outcome(
            old(som)@,
            final(som)@,
            r,
            *metric,
            *kernel,
            *conf,
            examples@,
        ),
        (forall|i: int| 0 <= i < examples@.len() ==> (#[trigger] examples@[i])@.len() == old(som)@.dim())
            && conf.valid_numbers() && examples@.len() > 0 ==> r is Ok,
{
    if !conf.has_valid_numbers() || examples.len() == 0 {
        return Err(SomError::Configuration);
    }
    let mut state: RunState = RunState::start(conf);
    let ghost start: Run = Run { grid: som@, state };
    let ghost mut draws: Seq<Seq<Fixed>> = Seq::empty();
    loop
        invariant
            som@.wf(),
            som@.width == start.grid.width,
            som@.height == start.grid.height,
            som@.dim() == start.grid.dim(),
            start == (Run { grid: old(som)@, state: RunState::initial(*conf) }),
            examples@.len() > 0,
            conf.valid_numbers(),
            ends_in(start, (Run { grid: som@, state }), *metric, *kernel, *conf, examples@, draws),
            draws.len() == state.epoch,
            state.epoch <= conf.max_epochs,
            state.stability <= conf.stability_duration,
        decreases conf.max_epochs - state.epoch,
    {
        let cancelled: bool = !may_go_on(stop_flag);
        match state.next_step(conf, cancelled) {
            Some(halt) => {
                proof {
                    lemma_course_state(start, *metric, *kernel, *conf, examples@, draws);
                }
                return Ok(TrainReport { halt, state });
            },
            None => {},
        }
        let example: &Vec<Fixed> = match rng.pick(examples) {
            Some(v) => v,
            None => {
                return Err(SomError::Configuration);
            },
        };
        let ghost before: Run = Run { grid: som@, state };
        match train_epoch(som, &mut state, example.as_slice(), metric, kernel, conf) {
            Ok(_) => {
                proof {
                    let longer = draws.push(example@);
                    assert(longer.drop_last() =~= draws);
                    assert(longer.last() == example@);
                    assert(is_sample(examples@, example@));
                    draws = longer;
                }
            },
            Err(e) => {
                assert(is_sample(examples@, example@));
                return Err(e);
            },
        }
    }
}

/// Trains `som` on `examples` with the kernel that `conf` names: the
/// training of `train_with`.
///
/// `Configuration`, with the map unchanged, where a number of `conf` is out
/// of its range, its kernel's name is not known, or there is no example.
pub fn train<R: RandomSource, M: DistanceMetric>(
    examples: &[Vec<Fixed>],
    som: &mut RectSom,
    metric: &M,
    rng: &mut R,
    conf: &TrainConfig,
    stop_flag: Arc<AtomicBool>,
) -> (r: Result<TrainReport, SomError>)
    requires
        old(som)@.wf(),
    ensures
        final(som)@.wf(),
        final(som)@.width == old(som)@.width,
        final(som)@.height == old(som)@.height,
        final(som)@.dim() == old(som)@.dim(),
        r == Err::<TrainReport, SomError>(SomError::Configuration) <==> !conf.valid()
            || examples@.len() == 0,
        r == Err::<TrainReport, SomError>(SomError::Configuration) ==> final(som)@ == old(som)@,
        r != Err::<TrainReport, SomError>(SomError::Configuration) ==> is_outcome(
            old(som)@,
            final(som)@,
            r,
            *metric,
            Neighbourhood::named(conf.neighbourhood@)->0,
            *conf,
            examples@,
        ),
        (forall|i: int| 0 <= i < examples@.len() ==> (#[trigger] examples@[i])@.len() == old(som)@.dim())
            && conf.valid() && examples@.len() > 0 ==> r is Ok,
{
    let kernel: Neighbourhood = match conf.check() {
        Ok(k) => k,
        Err(e) => {
            return Err(e);
        },
    };
    train_with(examples, som, metric, &kernel, rng, conf, &stop_flag)
}

/// A run that is told to stop ends as cancelled before its next epoch,
/// whatever its state.
pub proof fn lemma_stop_request_cancels(state: RunState, conf: TrainConfig)
    ensures
        state.verdict(conf, true) == Some(Halt::Cancelled),
{
}

/// Along a course from the initial state, the number of epochs done is the
/// number of draws, it is at most the configured number, and the radius is
/// the one after that many epochs.
pub proof fn lemma_course_state<M: DistanceMetric, K: NeighbourhoodKernel>(start: Run, metric: M, kernel: K, conf: TrainConfig, examples: Seq<Vec<Fixed>>, draws: Seq<Seq<Fixed>>)
    requires
        start.state == RunState::initial(conf),
        is_course(start, metric, kernel, conf, examples, draws),
    ensures
        run_epochs(start, metric, kernel, conf, draws).state.epoch == draws.len(),
        run_epochs(start, metric, kernel, conf, draws).state.radius == conf.radius_after(draws.len()),
        draws.len() <= conf.max_epochs,
    decreases draws.len(),
{
    if draws.len() > 0 {
        lemma_course_state(start, metric, kernel, conf, examples, draws.drop_last());
    }
}

/// A run that ended with a report, was not told to stop and did not
/// converge has done exactly the configured number of epochs.
pub proof fn lemma_uninterrupted_run_is_exhausted<M: DistanceMetric, K: NeighbourhoodKernel>(before: Grid, after: Grid, report: TrainReport, metric: M, kernel: K, conf: TrainConfig, examples: Seq<Vec<Fixed>>)
    requires
        is_outcome(before, after, Ok(report), metric, kernel, conf, examples),
        report.halt != Halt::Cancelled,
        report.halt != Halt::Converged,
    ensures
        report.halt == Halt::Exhausted,
        report.state.epoch == conf.max_epochs,
{
}

/// `b` to the power `n`.
pub open spec fn power(b: int, n: nat) -> int
    decreases n,
{
    if n == 0 {
        1
    } else {
        b * power(b, (n - 1) as nat)
    }
}

/// A power of a number that is not negative is not negative.
proof fn lemma_power_sign(b: int, n: nat)
    requires
        b >= 0,
    ensures
        power(b, n) >= 0,
    decreases n,
{
    if n > 0 {
        lemma_power_sign(b, (n - 1) as nat);
        assert(b * power(b, (n - 1) as nat) >= 0) by (nonlinear_arith)
            requires
                b >= 0,
                power(b, (n - 1) as nat) >= 0,
        ;
    }
}

/// Without a least radius, the radius after `n` epochs is the initial
/// radius times the `n`th power of the decay, but for the rounding: it is
/// at most that product and falls short of it by at most `n` units of
/// 2^-32. (Here both sides are multiplied by the `n`th power of the scale.)
pub proof fn lemma_radius_decays(conf: TrainConfig, n: nat)
    requires
        conf.min_radius is None,
        conf.initial_radius.raw >= 0,
        0 <= conf.radius_decay.raw <= SCALE,
    ensures
        0 <= conf.radius_after(n).raw,
        conf.radius_after(n).raw * power(SCALE as int, n) <= conf.initial_radius.raw * power(
            conf.radius_decay.raw as int,
            n,
        ),
        conf.initial_radius.raw * power(conf.radius_decay.raw as int, n) <= (conf.radius_after(n).raw
            + n) * power(SCALE as int, n),
    decreases n,
{
    let s = SCALE as int;
    let d = conf.radius_decay.raw as int;
    let r0 = conf.initial_radius.raw as int;
    if n > 0 {
        let k = (n - 1) as nat;
        lemma_radius_decays(conf, k);
        lemma_power_sign(s, k);
        lemma_power_sign(d, k);
        let rk = conf.radius_after(k).raw as int;
        let rn = conf.radius_after(n).raw as int;
        let sk = power(s, k);
        let dk = power(d, k);
        let p = rk * d;
        assert(0 <= p && p / s <= rk && (p / s) * s <= p < (p / s + 1) * s) by (nonlinear_arith)
            requires
                p == rk * d,
                0 <= rk,
                0 <= d <= s,
                s == 4294967296,
        ;
        assert(rn == p / s);
        assert(rn * (s * sk) <= r0 * (d * dk)) by (nonlinear_arith)
            requires
                rn * s <= rk * d,
                rk * sk <= r0 * dk,
                0 <= sk,
                0 <= d,
                0 <= rn,
                0 <= rk,
        ;
        assert(r0 * (d * dk) <= (rn + n) * (s * sk)) by (nonlinear_arith)
            requires
                rk * d < (rn + 1) * s,
                r0 * dk <= (rk + k) * sk,
                n == k + 1,
                0 <= sk,
                0 <= d <= s,
                0 <= rn,
                0 <= rk,
        ;
    }
}

/// With a least radius, the radius is never below it after the first
/// epoch; and once the decayed radius would fall below it, the radius is
/// exactly the least radius from then on.
pub proof fn lemma_radius_stays_at_minimum(conf: TrainConfig, k: nat, n: nat)
    requires
        conf.min_radius is Some,
        conf.min_radius->0.raw >= 0,
        0 <= conf.radius_decay.raw <= SCALE,
        k < n,
    ensures
        conf.radius_after(n).raw >= conf.min_radius->0.raw,
        conf.radius_after(k).product(conf.radius_decay).raw < conf.min_radius->0.raw
            ==> conf.radius_after(n) == conf.min_radius->0,
    decreases n,
{
    let s = SCALE as int;
    let d = conf.radius_decay.raw as int;
    let min = conf.min_radius->0;
    if n > k + 1 {
        lemma_radius_stays_at_minimum(conf, k, (n - 1) as nat);
        if conf.radius_after(k).product(conf.radius_decay).raw < min.raw {
            let p = min.raw * d;
            assert(0 <= p && p / s <= min.raw) by (nonlinear_arith)
                requires
                    p == min.raw * d,
                    0 <= min.raw,
                    0 <= d <= s,
                    s == 4294967296,
            ;
        }
    }
}

} // verus!
