use som::{
    sq_euclidean_dist, DistanceMetric, Fixed, Neighbourhood, RandomSource, RectSom, RectSomDefn,
    SomError, SquaredEuclidean, Uniform,
};

fn fg(x: f64) -> Fixed {
    Fixed::from_raw((x * 4294967296.0).round() as i64)
}

fn row(xs: &[f64]) -> Vec<Fixed> {
    xs.iter().map(|&x| fg(x)).collect()
}

fn raws(v: &[Fixed]) -> Vec<i64> {
    v.iter().map(|x| x.to_raw()).collect()
}

fn six_cells() -> RectSom {
    RectSom::from_fields(
        3,
        2,
        vec![
            row(&[1.0, -2.0]),
            row(&[0.5, 4.0]),
            row(&[3.0, 0.25]),
            row(&[-1.5, 2.0]),
            row(&[0.0, 0.0]),
            row(&[10.0, -10.0]),
        ],
    )
    .unwrap()
}

fn flat(x: f64) -> Uniform {
    Uniform { level: fg(x) }
}

/// Counts upward from the low bound, one unit each draw.
struct Counting(i64);

impl RandomSource for Counting {
    fn uniform(&mut self, low: Fixed, high: Fixed) -> Fixed {
        let span = high.to_raw() - low.to_raw();
        let r = low.to_raw() + self.0 % span;
        self.0 += 1;
        Fixed::from_raw(r)
    }

    fn pick<'a>(&mut self, values: &'a [Vec<Fixed>]) -> Option<&'a Vec<Fixed>> {
        values.first()
    }
}

#[test]
fn definition_holds_the_size() {
    let d = RectSomDefn { width: 4, height: 3 };
    assert_eq!((d.width, d.height), (4, 3));
}

#[test]
fn from_fields_keeps_what_it_is_given() {
    let som = six_cells();
    assert_eq!((som.width(), som.height(), som.dim()), (3, 2, 2));
    assert_eq!(som.fields().len(), 6);
    assert_eq!(som.fields()[2], row(&[3.0, 0.25]));
}

#[test]
fn from_fields_refuses_a_bad_shape() {
    let cell = row(&[1.0]);
    assert_eq!(RectSom::from_fields(0, 1, vec![]).err(), Some(SomError::Configuration));
    assert_eq!(RectSom::from_fields(1, 0, vec![]).err(), Some(SomError::Configuration));
    assert_eq!(RectSom::from_fields(1, 1, vec![]).err(), Some(SomError::Configuration));
    assert_eq!(
        RectSom::from_fields(2, 2, vec![cell.clone(), cell.clone(), cell.clone()]).err(),
        Some(SomError::Configuration)
    );
    assert_eq!(
        RectSom::from_fields(2, 1, vec![cell.clone(), cell.clone(), cell.clone()]).err(),
        Some(SomError::Configuration)
    );
    assert_eq!(RectSom::from_fields(1, 1, vec![vec![]]).err(), Some(SomError::Configuration));
}

#[test]
fn from_fields_refuses_vectors_of_different_lengths() {
    assert_eq!(
        RectSom::from_fields(2, 1, vec![row(&[1.0, 2.0]), row(&[1.0])]).err(),
        Some(SomError::DimensionMismatch)
    );
}

#[test]
fn new_random_has_the_asked_shape_and_bounds() {
    let bounds = [(fg(0.0), fg(100.0)), (fg(-128.0), fg(127.0)), (fg(-128.0), fg(127.0))];
    let mut rng = Counting(12345);
    let som = RectSom::new_random(5, 4, &bounds, &mut rng).unwrap();
    assert_eq!((som.width(), som.height(), som.dim()), (5, 4, 3));
    assert_eq!(som.fields().len(), 20);
    for cell in som.fields() {
        assert_eq!(cell.len(), 3);
        for (c, b) in cell.iter().zip(bounds.iter()) {
            assert!(b.0.to_raw() <= c.to_raw() && c.to_raw() < b.1.to_raw());
        }
    }
}

#[test]
fn new_random_draws_each_component_in_order() {
    let bounds = [(Fixed::from_raw(10), Fixed::from_raw(20)), (Fixed::from_raw(-5), Fixed::from_raw(5))];
    let mut rng = Counting(0);
    let som = RectSom::new_random(2, 1, &bounds, &mut rng).unwrap();
    assert_eq!(raws(&som.fields()[0]), vec![10, -4]);
    assert_eq!(raws(&som.fields()[1]), vec![12, -2]);
}

#[test]
fn new_random_refuses_an_empty_grid() {
    let bounds = [(fg(0.0), fg(1.0))];
    let mut rng = Counting(0);
    assert_eq!(RectSom::new_random(0, 3, &bounds, &mut rng).err(), Some(SomError::Configuration));
    assert_eq!(RectSom::new_random(3, 0, &bounds, &mut rng).err(), Some(SomError::Configuration));
    assert_eq!(RectSom::new_random(3, 3, &[], &mut rng).err(), Some(SomError::Configuration));
    assert!(RectSom::new_random(1, 1, &bounds, &mut rng).is_ok());
}

#[test]
fn field_is_the_cell_at_x_plus_width_times_y() {
    let som = six_cells();
    assert_eq!(som.field(0, 0).unwrap(), &row(&[1.0, -2.0])[..]);
    assert_eq!(som.field(2, 0).unwrap(), &row(&[3.0, 0.25])[..]);
    assert_eq!(som.field(0, 1).unwrap(), &row(&[-1.5, 2.0])[..]);
    assert_eq!(som.field(2, 1).unwrap(), &row(&[10.0, -10.0])[..]);
}

#[test]
fn field_refuses_a_coordinate_outside() {
    let som = six_cells();
    assert_eq!(som.field(3, 0).err(), Some(SomError::Index));
    assert_eq!(som.field(0, 2).err(), Some(SomError::Index));
    assert_eq!(som.field(usize::MAX, usize::MAX).err(), Some(SomError::Index));
    assert_eq!(som.linearize_coord(3, 1).err(), Some(SomError::Index));
}

#[test]
fn index_and_coordinate_are_inverse_on_a_grid_that_is_not_square() {
    let som = six_cells();
    for idx in 0..6 {
        let (x, y) = som.delinearize_coord(idx);
        assert!(x < 3 && y < 2);
        assert_eq!(som.linearize_coord(x, y), Ok(idx));
    }
    for y in 0..2 {
        for x in 0..3 {
            let idx = som.linearize_coord(x, y).unwrap();
            assert_eq!(som.delinearize_coord(idx), (x, y));
        }
    }
    assert_eq!(som.delinearize_coord(5), (2, 1));
    assert_eq!(som.delinearize_coord(3), (0, 1));
}

#[test]
fn squared_euclidean_distance_is_exact() {
    assert_eq!(sq_euclidean_dist(&row(&[1.5, 0.0]), &row(&[-2.0, 0.25])), 227125536407548854272);
    assert_eq!(sq_euclidean_dist(&row(&[1.5, 0.0]), &row(&[1.5, 0.0])), 0);
    assert_eq!(sq_euclidean_dist(&[Fixed::from_raw(1)], &[Fixed::from_raw(0)]), 1);
    assert_eq!(sq_euclidean_dist(&[], &[]), 0);
    assert_eq!(
        SquaredEuclidean {}.measure(&row(&[3.0]), &row(&[1.0])),
        sq_euclidean_dist(&row(&[1.0]), &row(&[3.0]))
    );
}

#[test]
fn squared_euclidean_distance_is_cut_off() {
    let lo = Fixed::from_raw(i64::MIN);
    let hi = Fixed::from_raw(i64::MAX);
    assert_eq!(sq_euclidean_dist(&[lo], &[hi]), (u64::MAX as u128) * (u64::MAX as u128));
    assert_eq!(sq_euclidean_dist(&[lo, lo], &[hi, hi]), u128::MAX);
    assert_eq!(sq_euclidean_dist(&[lo, lo, hi], &[hi, hi, hi]), u128::MAX);
}

#[test]
fn best_fitting_unit_finds_the_nearest_cell() {
    let som = six_cells();
    let m = SquaredEuclidean {};
    assert_eq!(som.best_fitting_unit(&row(&[9.0, -9.0]), &m), Ok((2, 1)));
    assert_eq!(som.best_fitting_unit(&row(&[0.4, 3.0]), &m), Ok((1, 0)));
    assert_eq!(som.best_fitting_unit(&row(&[-1.0, 1.5]), &m), Ok((0, 1)));
}

#[test]
fn best_fitting_unit_finds_an_exact_match_at_distance_zero() {
    let som = six_cells();
    let m = SquaredEuclidean {};
    for idx in 0..6 {
        let target = som.fields()[idx].clone();
        let at = som.best_fitting_unit(&target, &m).unwrap();
        assert_eq!(at, som.delinearize_coord(idx));
        assert_eq!(m.measure(som.field(at.0, at.1).unwrap(), &target), 0);
    }
}

#[test]
fn best_fitting_unit_takes_the_first_of_equals() {
    let som = RectSom::from_fields(
        2,
        2,
        vec![row(&[5.0]), row(&[1.0]), row(&[3.0]), row(&[1.0])],
    )
    .unwrap();
    let m = SquaredEuclidean {};
    assert_eq!(som.best_fitting_unit(&row(&[1.0]), &m), Ok((1, 0)));
    assert_eq!(som.best_fitting_unit(&row(&[2.0]), &m), Ok((1, 0)));
    assert_eq!(som.best_fitting_unit(&row(&[4.0]), &m), Ok((0, 0)));
}

#[test]
fn best_fitting_unit_refuses_another_dimension() {
    let som = six_cells();
    let m = SquaredEuclidean {};
    assert_eq!(som.best_fitting_unit(&row(&[1.0]), &m), Err(SomError::DimensionMismatch));
    assert_eq!(som.best_fitting_unit(&row(&[1.0, 2.0, 3.0]), &m), Err(SomError::DimensionMismatch));
    assert_eq!(som.best_fitting_unit(&[], &m), Err(SomError::DimensionMismatch));
}

#[test]
fn nudge_weights_blends_by_scale_times_rate() {
    let mut som = RectSom::from_fields(2, 1, vec![row(&[1.0]), row(&[5.0])]).unwrap();
    let m = som.nudge_weights((0, 0), fg(1.0), &row(&[3.0]), &flat(1.0), fg(0.25)).unwrap();
    assert_eq!(som.fields()[0], row(&[1.5]));
    assert_eq!(som.fields()[1], row(&[4.5]));
    assert_eq!(m, fg(0.5));
}

#[test]
fn nudge_weights_returns_the_norm_over_the_dimension() {
    let mut som = RectSom::from_fields(1, 1, vec![row(&[0.0, 0.0])]).unwrap();
    let m = som.nudge_weights((0, 0), fg(1.0), &row(&[3.0, 4.0]), &flat(1.0), fg(1.0)).unwrap();
    assert_eq!(som.fields()[0], row(&[3.0, 4.0]));
    assert_eq!(m, fg(2.5));
}

#[test]
fn nudge_weights_with_the_gaussian_kernel() {
    let mut som = six_cells();
    let m = som.nudge_weights((1, 0), fg(1.5), &row(&[2.0, 1.0]), &Neighbourhood::Gaussian, fg(0.5)).unwrap();
    let want: [[i64; 2]; 6] = [
        [6014537775, -3431223155],
        [5368709120, 10737418240],
        [11165331409, 2363419683],
        [-1623215546, 7213010193],
        [3439140958, 1719570479],
        [31934277769, -27803504571],
    ];
    for (cell, w) in som.fields().iter().zip(want.iter()) {
        assert_eq!(raws(cell), w.to_vec());
    }
    assert_eq!(m.to_raw(), 3531287923);
}

#[test]
fn nudge_weights_with_a_negative_weight_moves_away() {
    let mut som = RectSom::from_fields(1, 1, vec![row(&[1.0])]).unwrap();
    let m = som.nudge_weights((0, 0), fg(1.0), &row(&[3.0]), &flat(-0.5), fg(1.0)).unwrap();
    assert_eq!(som.fields()[0], row(&[0.0]));
    assert_eq!(m, fg(1.0));
}

#[test]
fn nudge_weights_with_weight_one_and_rate_one_reaches_the_target() {
    let mut som = six_cells();
    let target = row(&[0.3, -7.7]);
    let first = som.nudge_weights((2, 1), fg(2.0), &target, &flat(1.0), fg(1.0)).unwrap();
    assert!(first.to_raw() > 0);
    for cell in som.fields() {
        assert_eq!(cell, &target);
    }
    let second = som.nudge_weights((0, 0), fg(0.5), &target, &flat(1.0), fg(1.0)).unwrap();
    assert_eq!(second.to_raw(), 0);
    for cell in som.fields() {
        assert_eq!(cell, &target);
    }
}

#[test]
fn nudge_weights_with_rate_zero_changes_nothing() {
    let mut som = six_cells();
    let before = som.fields().clone();
    let m = som.nudge_weights((1, 1), fg(1.5), &row(&[2.0, 1.0]), &Neighbourhood::Gaussian, fg(0.0)).unwrap();
    assert_eq!(m.to_raw(), 0);
    assert_eq!(som.fields(), &before);
}

#[test]
fn nudge_weights_refuses_another_dimension() {
    let mut som = six_cells();
    let before = som.fields().clone();
    assert_eq!(
        som.nudge_weights((1, 1), fg(1.5), &row(&[2.0]), &Neighbourhood::Gaussian, fg(0.5)),
        Err(SomError::DimensionMismatch)
    );
    assert_eq!(som.fields(), &before);
}
