use som::{
    train, train_epoch, train_with, Fixed, Halt, RandomSource, RectSom, RunState, SomError,
    SquaredEuclidean, TrainConfig, Uniform,
};
use rand::SeedableRng;
use std::sync::atomic::{AtomicBool, Ordering};
use std::sync::Arc;

fn ft(x: f64) -> Fixed {
    Fixed::from_raw((x * 4294967296.0).round() as i64)
}

fn vecs(rows: &[&[f64]]) -> Vec<Vec<Fixed>> {
    rows.iter().map(|r| r.iter().map(|&x| ft(x)).collect()).collect()
}

fn config() -> TrainConfig {
    TrainConfig {
        train_rate: ft(0.5),
        stability_threshold: ft(0.0),
        stability_duration: 3,
        initial_radius: ft(4.0),
        radius_decay: ft(0.5),
        min_radius: None,
        max_epochs: 7,
        neighbourhood: "gaussian".to_string(),
    }
}

fn scenario_config(threshold: Fixed) -> TrainConfig {
    TrainConfig {
        train_rate: ft(1.0),
        stability_threshold: threshold,
        stability_duration: 1,
        initial_radius: ft(1.0),
        radius_decay: ft(1.0),
        min_radius: None,
        max_epochs: 10,
        neighbourhood: "gaussian".to_string(),
    }
}

/// Always draws the first.
struct First;

impl RandomSource for First {
    fn uniform(&mut self, low: Fixed, _high: Fixed) -> Fixed {
        low
    }

    fn pick<'a>(&mut self, values: &'a [Vec<Fixed>]) -> Option<&'a Vec<Fixed>> {
        values.first()
    }
}

/// Draws the examples in turn.
struct Turns(usize);

impl RandomSource for Turns {
    fn uniform(&mut self, low: Fixed, _high: Fixed) -> Fixed {
        low
    }

    fn pick<'a>(&mut self, values: &'a [Vec<Fixed>]) -> Option<&'a Vec<Fixed>> {
        if values.is_empty() {
            return None;
        }
        let v = &values[self.0 % values.len()];
        self.0 += 1;
        Some(v)
    }
}

fn always(x: f64) -> Uniform {
    Uniform { level: ft(x) }
}

/// Draws the first, and asks for a stop as it does.
struct Stopping(Arc<AtomicBool>);

impl RandomSource for Stopping {
    fn uniform(&mut self, low: Fixed, _high: Fixed) -> Fixed {
        low
    }

    fn pick<'a>(&mut self, values: &'a [Vec<Fixed>]) -> Option<&'a Vec<Fixed>> {
        self.0.store(false, Ordering::SeqCst);
        values.first()
    }
}

fn two_cells(a: f64, b: f64) -> RectSom {
    RectSom::from_fields(2, 1, vecs(&[&[a], &[b]])).unwrap()
}

#[test]
fn one_epoch_with_weight_one_and_rate_one_reaches_the_sample() {
    let samples = vecs(&[&[0.0], &[1.0]]);
    let conf = scenario_config(ft(0.0));
    let mut som = two_cells(0.7, 0.2);
    let mut state = RunState::start(&conf);
    assert_eq!(
        train_epoch(&mut som, &mut state, &samples[0], &SquaredEuclidean {}, &always(1.0), &conf),
        Ok(())
    );
    assert_eq!(state.epoch, 1);
    assert_eq!(som.fields(), &vecs(&[&[0.0], &[0.0]]));
    let again = som
        .nudge_weights((1, 0), state.radius, &samples[0], &always(1.0), conf.train_rate)
        .unwrap();
    assert_eq!(again.to_raw(), 0);
    assert_eq!(som.fields(), &vecs(&[&[0.0], &[0.0]]));
}

#[test]
fn scenario_with_threshold_zero_is_never_stable() {
    let samples = vecs(&[&[0.0], &[1.0]]);
    let conf = scenario_config(ft(0.0));
    let mut som = two_cells(0.7, 0.2);
    let flag = AtomicBool::new(true);
    let report = train_with(
        &samples,
        &mut som,
        &SquaredEuclidean {},
        &always(1.0),
        &mut First,
        &conf,
        &flag,
    )
    .unwrap();
    assert_eq!(som.fields(), &vecs(&[&[0.0], &[0.0]]));
    assert_eq!(report.halt, Halt::Exhausted);
    assert_eq!(report.state.epoch, 10);
    assert_eq!(report.state.stability, 0);
}

#[test]
fn scenario_with_the_least_threshold_halts_after_the_first_still_epoch() {
    let samples = vecs(&[&[0.0], &[1.0]]);
    let conf = scenario_config(Fixed::from_raw(1));
    let flag = AtomicBool::new(true);

    let mut at_rest = two_cells(0.0, 0.0);
    let report = train_with(
        &samples,
        &mut at_rest,
        &SquaredEuclidean {},
        &always(1.0),
        &mut First,
        &conf,
        &flag,
    )
    .unwrap();
    assert_eq!(report.halt, Halt::Converged);
    assert_eq!((report.state.epoch, report.state.stability), (1, 1));
    assert_eq!(at_rest.fields(), &vecs(&[&[0.0], &[0.0]]));

    let mut moving = two_cells(0.7, 0.2);
    let report = train_with(
        &samples,
        &mut moving,
        &SquaredEuclidean {},
        &always(1.0),
        &mut First,
        &conf,
        &flag,
    )
    .unwrap();
    assert_eq!(report.halt, Halt::Converged);
    assert_eq!((report.state.epoch, report.state.stability), (2, 1));
    assert_eq!(moving.fields(), &vecs(&[&[0.0], &[0.0]]));
}

#[test]
fn train_halts_after_max_epochs_when_never_stable() {
    let samples = vecs(&[&[0.0, 1.0], &[1.0, 0.0], &[0.5, 0.5]]);
    let mut som = RectSom::from_fields(
        2,
        2,
        vecs(&[&[0.1, 0.2], &[0.3, 0.4], &[0.5, 0.6], &[0.7, 0.8]]),
    )
    .unwrap();
    let mut rng = rand::XorShiftRng::from_seed([1, 2, 3, 4]);
    let report = train(
        &samples,
        &mut som,
        &SquaredEuclidean {},
        &mut rng,
        &config(),
        Arc::new(AtomicBool::new(true)),
    )
    .unwrap();
    assert_eq!(report.halt, Halt::Exhausted);
    assert_eq!(report.state.epoch, 7);
    assert_eq!(report.state.stability, 0);
    assert_eq!(report.state.radius, ft(4.0 / 128.0));
}

#[test]
fn train_is_cancelled_before_the_first_epoch() {
    let samples = vecs(&[&[0.0], &[1.0]]);
    let mut som = two_cells(0.7, 0.2);
    let report = train(
        &samples,
        &mut som,
        &SquaredEuclidean {},
        &mut First,
        &config(),
        Arc::new(AtomicBool::new(false)),
    )
    .unwrap();
    assert_eq!(report.halt, Halt::Cancelled);
    assert_eq!(report.state, RunState { epoch: 0, radius: ft(4.0), stability: 0 });
    assert_eq!(som.fields(), &vecs(&[&[0.7], &[0.2]]));
}

#[test]
fn train_finishes_the_epoch_in_which_a_stop_is_requested() {
    let samples = vecs(&[&[0.0], &[1.0]]);
    let mut som = two_cells(0.75, 0.25);
    let flag = Arc::new(AtomicBool::new(true));
    let report = train_with(
        &samples,
        &mut som,
        &SquaredEuclidean {},
        &always(1.0),
        &mut Stopping(flag.clone()),
        &config(),
        &flag,
    )
    .unwrap();
    assert_eq!(report.halt, Halt::Cancelled);
    assert_eq!(report.state.epoch, 1);
    assert_eq!(report.state.radius, ft(2.0));
    assert_eq!(som.fields(), &vecs(&[&[0.375], &[0.125]]));
}

#[test]
fn train_with_no_epochs_allowed_does_none() {
    let samples = vecs(&[&[0.0]]);
    let mut som = two_cells(0.7, 0.2);
    let mut conf = config();
    conf.max_epochs = 0;
    let flag = Arc::new(AtomicBool::new(true));
    let report = train(&samples, &mut som, &SquaredEuclidean {}, &mut First, &conf, flag.clone()).unwrap();
    assert_eq!(report.halt, Halt::Exhausted);
    assert_eq!(report.state.epoch, 0);
    assert_eq!(som.fields(), &vecs(&[&[0.7], &[0.2]]));
    conf.stability_duration = 0;
    let report = train(&samples, &mut som, &SquaredEuclidean {}, &mut First, &conf, flag).unwrap();
    assert_eq!(report.halt, Halt::Exhausted);
}

#[test]
fn train_with_no_stable_epochs_asked_converges_at_once() {
    let samples = vecs(&[&[0.0]]);
    let mut som = two_cells(0.7, 0.2);
    let mut conf = config();
    conf.stability_duration = 0;
    let report = train(
        &samples,
        &mut som,
        &SquaredEuclidean {},
        &mut First,
        &conf,
        Arc::new(AtomicBool::new(true)),
    )
    .unwrap();
    assert_eq!(report.halt, Halt::Converged);
    assert_eq!(report.state.epoch, 0);
    assert_eq!(som.fields(), &vecs(&[&[0.7], &[0.2]]));
}

#[test]
fn train_converges_after_the_asked_number_of_stable_epochs() {
    let samples = vecs(&[&[0.0]]);
    let mut som = two_cells(1.0, 1.0);
    let mut conf = config();
    conf.train_rate = ft(0.5);
    conf.stability_threshold = ft(0.1);
    conf.stability_duration = 2;
    conf.max_epochs = 100;
    let flag = AtomicBool::new(true);
    // Shifts: 0.5, 0.25, 0.125, 0.0625, 0.03125: the fourth and fifth are
    // below the threshold.
    let report = train_with(&samples, &mut som, &SquaredEuclidean {}, &always(1.0), &mut First, &conf, &flag)
        .unwrap();
    assert_eq!(report.halt, Halt::Converged);
    assert_eq!((report.state.epoch, report.state.stability), (5, 2));
    assert_eq!(som.fields(), &vecs(&[&[0.03125], &[0.03125]]));
}

#[test]
fn an_unstable_epoch_resets_the_count() {
    let conf = TrainConfig { stability_threshold: ft(0.5), ..config() };
    let mut state = RunState::start(&conf);
    state.advance(&conf, ft(0.25));
    state.advance(&conf, ft(0.49));
    assert_eq!((state.epoch, state.stability), (2, 2));
    state.advance(&conf, ft(0.5));
    assert_eq!((state.epoch, state.stability), (3, 0));
    state.advance(&conf, ft(0.0));
    assert_eq!((state.epoch, state.stability), (4, 1));
}

#[test]
fn next_step_decides_in_the_order_cancelled_exhausted_converged() {
    let conf = config();
    let fresh = RunState::start(&conf);
    assert_eq!(fresh.next_step(&conf, false), None);
    assert_eq!(fresh.next_step(&conf, true), Some(Halt::Cancelled));
    let spent = RunState { epoch: 7, radius: ft(1.0), stability: 3 };
    assert_eq!(spent.next_step(&conf, true), Some(Halt::Cancelled));
    assert_eq!(spent.next_step(&conf, false), Some(Halt::Exhausted));
    let stable = RunState { epoch: 6, radius: ft(1.0), stability: 3 };
    assert_eq!(stable.next_step(&conf, false), Some(Halt::Converged));
    let running = RunState { epoch: 6, radius: ft(1.0), stability: 2 };
    assert_eq!(running.next_step(&conf, false), None);
}

#[test]
fn radius_decays_by_the_factor_each_epoch() {
    let conf = config();
    let mut r = conf.initial_radius;
    for n in 1..=10 {
        r = conf.decay(r);
        assert_eq!(r, ft(4.0 * 0.5f64.powi(n)));
    }
    let third = TrainConfig { radius_decay: Fixed::from_raw(1431655765), ..config() };
    assert_eq!(third.decay(ft(3.0)).to_raw(), 4294967295);
}

#[test]
fn radius_is_clamped_to_the_least_radius() {
    let conf = TrainConfig { min_radius: Some(ft(0.75)), ..config() };
    let mut r = conf.initial_radius;
    let mut seen = Vec::new();
    for _ in 0..6 {
        r = conf.decay(r);
        seen.push(r);
    }
    assert_eq!(seen, vec![ft(2.0), ft(1.0), ft(0.75), ft(0.75), ft(0.75), ft(0.75)]);
}

#[test]
fn train_reports_the_clamped_radius() {
    let samples = vecs(&[&[0.0]]);
    let mut som = two_cells(0.7, 0.2);
    let conf = TrainConfig { min_radius: Some(ft(0.75)), ..config() };
    let report = train(
        &samples,
        &mut som,
        &SquaredEuclidean {},
        &mut First,
        &conf,
        Arc::new(AtomicBool::new(true)),
    )
    .unwrap();
    assert_eq!(report.state.epoch, 7);
    assert_eq!(report.state.radius, ft(0.75));
}

#[test]
fn train_refuses_a_configuration_out_of_range() {
    let samples = vecs(&[&[0.0]]);
    let bad = [
        TrainConfig { train_rate: ft(0.0), ..config() },
        TrainConfig { train_rate: ft(-0.5), ..config() },
        TrainConfig { stability_threshold: Fixed::from_raw(-1), ..config() },
        TrainConfig { initial_radius: ft(0.0), ..config() },
        TrainConfig { radius_decay: ft(0.0), ..config() },
        TrainConfig { radius_decay: Fixed::from_raw(4294967297), ..config() },
        TrainConfig { min_radius: Some(Fixed::from_raw(-1)), ..config() },
        TrainConfig { neighbourhood: "mexican_hat".to_string(), ..config() },
        TrainConfig { neighbourhood: String::new(), ..config() },
    ];
    for conf in bad.iter() {
        let mut som = two_cells(0.7, 0.2);
        let r = train(
            &samples,
            &mut som,
            &SquaredEuclidean {},
            &mut First,
            conf,
            Arc::new(AtomicBool::new(true)),
        );
        assert_eq!(r, Err(SomError::Configuration));
        assert_eq!(som.fields(), &vecs(&[&[0.7], &[0.2]]));
        assert_eq!(conf.check(), Err(SomError::Configuration));
    }
}

#[test]
fn train_accepts_the_edges_of_the_ranges() {
    let samples = vecs(&[&[0.0]]);
    let good = [
        TrainConfig { train_rate: Fixed::from_raw(1), ..config() },
        TrainConfig { radius_decay: ft(1.0), ..config() },
        TrainConfig { radius_decay: Fixed::from_raw(1), ..config() },
        TrainConfig { min_radius: Some(ft(0.0)), ..config() },
        TrainConfig { neighbourhood: "sinc_sq".to_string(), ..config() },
        TrainConfig { neighbourhood: "sinc".to_string(), ..config() },
        TrainConfig { neighbourhood: "expon".to_string(), ..config() },
    ];
    for conf in good.iter() {
        let mut som = two_cells(0.7, 0.2);
        let r = train(
            &samples,
            &mut som,
            &SquaredEuclidean {},
            &mut First,
            conf,
            Arc::new(AtomicBool::new(true)),
        );
        assert_eq!(r.map(|report| report.state.epoch), Ok(7));
    }
}

#[test]
fn train_refuses_to_run_without_examples() {
    let mut som = two_cells(0.7, 0.2);
    let r = train(
        &[],
        &mut som,
        &SquaredEuclidean {},
        &mut First,
        &config(),
        Arc::new(AtomicBool::new(true)),
    );
    assert_eq!(r, Err(SomError::Configuration));
}

#[test]
fn train_stops_at_the_first_example_of_another_dimension() {
    let samples = vecs(&[&[0.0], &[1.0, 2.0], &[0.5]]);
    let mut som = two_cells(1.0, 1.0);
    let flag = AtomicBool::new(true);
    let r = train_with(
        &samples,
        &mut som,
        &SquaredEuclidean {},
        &always(1.0),
        &mut Turns(0),
        &config(),
        &flag,
    );
    assert_eq!(r, Err(SomError::DimensionMismatch));
    // The first epoch was done: halfway from one to zero.
    assert_eq!(som.fields(), &vecs(&[&[0.5], &[0.5]]));
}

#[test]
fn train_is_reproducible_from_a_seed() {
    let samples = vecs(&[&[0.0, 1.0], &[1.0, 0.0], &[0.5, 0.5], &[0.9, 0.1]]);
    let conf = TrainConfig { max_epochs: 50, ..config() };
    let mut runs = Vec::new();
    for _ in 0..2 {
        let mut rng = rand::XorShiftRng::from_seed([9, 8, 7, 6]);
        let bounds = [(ft(0.0), ft(1.0)), (ft(0.0), ft(1.0))];
        let mut som = RectSom::new_random(3, 3, &bounds, &mut rng).unwrap();
        let report = train(
            &samples,
            &mut som,
            &SquaredEuclidean {},
            &mut rng,
            &conf,
            Arc::new(AtomicBool::new(true)),
        )
        .unwrap();
        runs.push((som.fields().clone(), report));
    }
    assert_eq!(runs[0], runs[1]);
    assert_eq!(runs[0].1.state.epoch, 50);
}
