use som::kernel::exp_neg_of;
use som::kernel::sine_of;
use som::kernel::HALF_PI;
use som::kernel::PI;
use som::kernel::TWO_PI;
use som::{expon, gaussian, sinc_sq, Fixed, Neighbourhood, NeighbourhoodKernel};

const UNIT: i64 = 4294967296;

fn fk(x: f64) -> Fixed {
    Fixed::from_raw((x * 4294967296.0).round() as i64)
}

fn near(got: Fixed, want: f64, ulps: f64) -> bool {
    (got.to_raw() as f64 - want * 4294967296.0).abs() <= ulps
}

#[test]
fn kernels_are_one_at_the_origin() {
    for raw in [1i64, 7, UNIT / 3, UNIT, 5 * UNIT, 1 << 50, i64::MAX] {
        let r = Fixed::from_raw(raw);
        assert_eq!(gaussian(0, 0, r).to_raw(), UNIT);
        assert_eq!(sinc_sq(0, 0, r).to_raw(), UNIT);
        assert_eq!(expon(0, 0, r).to_raw(), UNIT);
    }
}

#[test]
fn kernels_are_one_at_the_origin_for_any_radius() {
    for raw in [0i64, -1, -UNIT, i64::MIN] {
        let r = Fixed::from_raw(raw);
        assert_eq!(gaussian(0, 0, r).to_raw(), UNIT);
        assert_eq!(sinc_sq(0, 0, r).to_raw(), UNIT);
        assert_eq!(expon(0, 0, r).to_raw(), UNIT);
    }
}

#[test]
fn exponential_of_known_exponents() {
    assert_eq!(exp_neg_of(Fixed::from_raw(0)).to_raw(), UNIT);
    assert_eq!(exp_neg_of(Fixed::from_int(1)).to_raw(), 1580030168);
    assert_eq!(exp_neg_of(fk(0.5)).to_raw(), 2605029347);
    assert_eq!(exp_neg_of(fk(2.5)).to_raw(), 352552384);
    assert_eq!(exp_neg_of(Fixed::from_raw(1)).to_raw(), 4294967295);
}

#[test]
fn exponential_follows_the_real_function() {
    for k in 0..200 {
        let x = k as f64 * 0.11;
        assert!(near(exp_neg_of(fk(x)), (-x).exp(), 64.0), "at {}", x);
    }
}

#[test]
fn exponential_vanishes_for_large_exponents() {
    assert_eq!(exp_neg_of(Fixed::from_int(22)).to_raw(), 1);
    assert_eq!(exp_neg_of(Fixed::from_int(23)).to_raw(), 0);
    assert_eq!(exp_neg_of(Fixed::from_raw(32 * UNIT - 1)).to_raw(), 0);
    assert_eq!(exp_neg_of(Fixed::from_int(32)).to_raw(), 0);
    assert_eq!(exp_neg_of(Fixed::from_raw(i64::MAX)).to_raw(), 0);
}

#[test]
fn exponential_of_a_negative_exponent_is_one() {
    assert_eq!(exp_neg_of(Fixed::from_raw(-1)).to_raw(), UNIT);
    assert_eq!(exp_neg_of(Fixed::from_int(-5)).to_raw(), UNIT);
}

#[test]
fn sine_of_known_angles() {
    assert_eq!(sine_of(Fixed::from_raw(0)).to_raw(), 0);
    assert_eq!(sine_of(Fixed::from_int(1)).to_raw(), 3614090361);
    assert_eq!(sine_of(Fixed::from_int(-1)).to_raw(), -3614090361);
    assert_eq!(sine_of(Fixed::from_int(4)).to_raw(), -3250441967);
    assert_eq!(sine_of(Fixed::from_int(100)).to_raw(), -2174823868);
    assert_eq!(sine_of(Fixed::from_raw(HALF_PI)).to_raw(), 4294967300);
    assert_eq!(sine_of(Fixed::from_raw(PI)).to_raw(), 0);
    assert_eq!(sine_of(Fixed::from_raw(TWO_PI)).to_raw(), 0);
    assert_eq!(sine_of(Fixed::from_raw(i64::MIN)).to_raw(), 4168140365);
    assert_eq!(sine_of(Fixed::from_raw(i64::MAX)).to_raw(), -4168140365);
}

#[test]
fn sine_follows_the_real_function() {
    for k in -300..300 {
        let x = k as f64 * 0.07;
        assert!(near(sine_of(fk(x)), x.sin(), 64.0), "at {}", x);
    }
}

#[test]
fn gaussian_values() {
    assert_eq!(gaussian(1, 0, Fixed::from_int(1)).to_raw(), 2605029347);
    assert_eq!(gaussian(3, 4, fk(2.5)).to_raw(), 581260615);
    assert_eq!(gaussian(-3, -4, fk(2.5)).to_raw(), 581260615);
    assert!(near(gaussian(2, -1, fk(1.75)), (-5.0f64 / (2.0 * 1.75 * 1.75)).exp(), 64.0));
}

#[test]
fn gaussian_at_the_edges() {
    assert_eq!(gaussian(1, 1, Fixed::from_raw(0)).to_raw(), 0);
    assert_eq!(gaussian(1, 0, Fixed::from_raw(1)).to_raw(), 0);
    assert_eq!(gaussian(50000, 0, Fixed::from_int(1)).to_raw(), 0);
    assert_eq!(gaussian(isize::MIN, isize::MIN, Fixed::from_int(1)).to_raw(), 0);
    assert_eq!(gaussian(2, 1, Fixed::from_int(-1)).to_raw(), 352552384);
}

#[test]
fn exponential_kernel_values() {
    assert_eq!(expon(3, 4, Fixed::from_int(2)).to_raw(), 352552384);
    assert_eq!(expon(1, 0, Fixed::from_int(1)).to_raw(), 1580030168);
    assert_eq!(expon(0, 5, fk(0.5)).to_raw(), 194991);
    assert_eq!(expon(1, 0, Fixed::from_raw(0)).to_raw(), 0);
    assert_eq!(expon(1, 0, Fixed::from_int(-1)).to_raw(), 1580030168);
}

#[test]
fn sinc_values() {
    assert_eq!(sinc_sq(1, 0, Fixed::from_int(1)).to_raw(), 4118234018);
    assert_eq!(sinc_sq(0, 1, fk(0.25)).to_raw(), 1952701355);
    assert!(near(sinc_sq(1, 0, Fixed::from_int(1)), (0.5f64).sin() / 0.5, 64.0));
}

#[test]
fn sinc_goes_negative() {
    assert_eq!(sinc_sq(3, 4, fk(0.5)).to_raw(), -823709680);
    assert_eq!(sinc_sq(-3, 4, fk(0.5)).to_raw(), -823709680);
    assert!(near(sinc_sq(3, 4, fk(0.5)), (5.0f64).sin() / 5.0, 64.0));
}

#[test]
fn sinc_at_the_edges() {
    assert_eq!(sinc_sq(1, 0, Fixed::from_raw(0)).to_raw(), -1);
    assert_eq!(sinc_sq(2, 0, Fixed::from_raw(i64::MAX)).to_raw(), UNIT);
}

#[test]
fn exponential_never_grows_with_the_exponent() {
    for k in 1..37 {
        let edge = 1i64 << k;
        let mut last = i64::MAX;
        for raw in (edge - 70)..(edge + 70) {
            let now = exp_neg_of(Fixed::from_raw(raw)).to_raw();
            assert!(now <= last, "at {}", raw);
            last = now;
        }
    }
    assert_eq!(exp_neg_of(Fixed::from_raw(131071)).to_raw(), 4294836226);
    assert_eq!(exp_neg_of(Fixed::from_raw(131072)).to_raw(), 4294836225);
}

#[test]
fn exponential_lies_between_its_elementary_bounds() {
    let unit = UNIT as i128;
    for k in 0..4000 {
        let raw = (k as i64) * 39_000_001 + (k as i64 % 7);
        let e = exp_neg_of(Fixed::from_raw(raw)).to_raw() as i128;
        assert!(unit - raw as i128 <= e, "at {}", raw);
        assert!(e * (unit + raw as i128) <= unit * unit, "at {}", raw);
    }
}

#[test]
fn sine_is_at_most_the_angle_in_size() {
    for raw in [0i64, 1, 2, 1000, UNIT / 2, UNIT, HALF_PI, PI - 1, PI, PI + 1, TWO_PI, i64::MAX, i64::MIN] {
        for x in [raw, raw.saturating_neg()] {
            let s = sine_of(Fixed::from_raw(x)).to_raw();
            assert!(s.unsigned_abs() <= x.unsigned_abs(), "at {}", x);
            assert!(s.unsigned_abs() <= HALF_PI as u64);
        }
    }
}

#[test]
fn nearer_offsets_never_weigh_less() {
    let r = Fixed::from_int(25000);
    assert_eq!(gaussian(17614, 1499, r).to_raw(), 3344923901);
    assert_eq!(gaussian(17500, 2500, r).to_raw(), 3344923893);
    let wide = Fixed::from_int(1 << 30);
    assert_eq!(expon(25827, 20167, wide).to_raw(), 4294836226);
    assert_eq!(expon(32768, 0, wide).to_raw(), 4294836225);
}

#[test]
fn kernels_keep_their_formulas_on_large_grids() {
    assert_eq!(gaussian(45825, 0, Fixed::from_int(40000)).to_raw(), 2228247987);
    assert!(near(
        gaussian(45825, 0, Fixed::from_int(40000)),
        (-(45825.0f64 * 45825.0) / (2.0 * 40000.0 * 40000.0)).exp(),
        2.0
    ));
    assert_eq!(gaussian(3, 0, Fixed::from_raw(i64::MAX)).to_raw(), UNIT);
    assert_eq!(expon(100000, 0, Fixed::from_int(50000)).to_raw(), 581260615);
    assert_eq!(expon(isize::MIN, isize::MIN, Fixed::from_raw(i64::MAX)).to_raw(), 0);
    assert_eq!(sinc_sq(100000, 0, Fixed::from_int(10000)).to_raw(), -823709680);
    assert_eq!(sinc_sq(1, 0, Fixed::from_int(-1)).to_raw(), 4118234018);
}

#[test]
fn kernels_depend_on_the_length_of_the_offset_only() {
    let r = fk(2.25);
    for (dx, dy) in [(1isize, 2isize), (0, 5), (7, 3), (12, 0)] {
        for (ex, ey) in [(-dx, dy), (dx, -dy), (dy, dx), (-dy, -dx)] {
            assert_eq!(gaussian(ex, ey, r), gaussian(dx, dy, r));
            assert_eq!(expon(ex, ey, r), expon(dx, dy, r));
            assert_eq!(sinc_sq(ex, ey, r), sinc_sq(dx, dy, r));
        }
    }
}

#[test]
fn sinc_stays_between_minus_one_and_one() {
    for raw in [1i64, UNIT / 7, UNIT, 3 * UNIT, 1 << 45, i64::MAX, -UNIT, i64::MIN, 0] {
        for d in 0..60 {
            let w = sinc_sq(d, 2 * d, Fixed::from_raw(raw)).to_raw();
            assert!((-UNIT..=UNIT).contains(&w));
        }
    }
}

#[test]
fn kernels_do_not_grow_with_distance() {
    let r = fk(3.0);
    let mut last_g = i64::MAX;
    let mut last_e = i64::MAX;
    for d in 0..40 {
        let g = gaussian(d, 0, r).to_raw();
        let e = expon(0, d, r).to_raw();
        assert!(g <= last_g && e <= last_e);
        assert!((0..=UNIT).contains(&g) && (0..=UNIT).contains(&e));
        last_g = g;
        last_e = e;
    }
}

#[test]
fn kernel_names() {
    assert_eq!(Neighbourhood::from_name(&"gaussian".to_string()), Some(Neighbourhood::Gaussian));
    assert_eq!(Neighbourhood::from_name(&"sinc_sq".to_string()), Some(Neighbourhood::SincSq));
    assert_eq!(Neighbourhood::from_name(&"expon".to_string()), Some(Neighbourhood::Expon));
    assert_eq!(Neighbourhood::from_name(&"Gaussian".to_string()), None);
    assert_eq!(Neighbourhood::from_name(&"sinc".to_string()), Some(Neighbourhood::SincSq));
    assert_eq!(Neighbourhood::from_name(&"sinc_sq ".to_string()), None);
    assert_eq!(Neighbourhood::from_name(&"exponential".to_string()), None);
    assert_eq!(Neighbourhood::from_name(&"".to_string()), None);
}

#[test]
fn named_kernels_are_the_functions() {
    let r = fk(1.25);
    for (dx, dy) in [(0isize, 0isize), (1, 0), (-2, 3), (7, -7)] {
        assert_eq!(Neighbourhood::Gaussian.scale(dx, dy, r), gaussian(dx, dy, r));
        assert_eq!(Neighbourhood::SincSq.scale(dx, dy, r), sinc_sq(dx, dy, r));
        assert_eq!(Neighbourhood::Expon.scale(dx, dy, r), expon(dx, dy, r));
    }
}
