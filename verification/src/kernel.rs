//! Neighbourhood kernels: how strongly a cell follows a sample, by its
//! offset from the best matching cell.

use vstd::prelude::*;
use crate::fixed::floor_sqrt;
use crate::fixed::integer_sqrt;
use crate::fixed::lemma_floor_sqrt_exists;
use crate::fixed::lemma_floor_sqrt_grows;
use crate::fixed::lemma_floor_sqrt_is;
use crate::fixed::quotient_toward_zero;
use crate::fixed::saturate;
use crate::fixed::Fixed;
use crate::fixed::SCALE;

verus! {

/// A weight for each offset on the grid and each radius.
pub trait NeighbourhoodKernel {
    /// The weight at offset `(dx, dy)` for `radius`.
    spec fn weight(&self, dx: int, dy: int, radius: Fixed) -> Fixed;

    /// Computes the weight at offset `(dx, dy)` for `radius`.
    fn scale(&self, dx: isize, dy: isize, radius: Fixed) -> (w: Fixed)
        ensures
            w == self.weight(dx as int, dy as int, radius),
    ;
}

/// The number of units of 2^-62 in one: the finer scale in which the
/// exponential is multiplied up.
pub const FINE: u64 = 4611686018427387904;

/// `e^(-2^(i - 32))` in units of 2^-62, rounded to nearest, for `i` from 0
/// to 36: the factor that the bit of weight `2^(i - 32)` of an exponent
/// contributes.
pub const DECAY_FACTORS: [u64; 37] = [
    4611686017353646080,
    4611686016279904256,
    4611686014132420610,
    4611686009837453320,
    4611686001247518752,
    4611685984067649664,
    4611685949707911680,
    4611685880988436480,
    4611685743549489152,
    4611685468671606784,
    4611684918915891200,
    4611683819404656640,
    4611681620382973951,
    4611677222342754299,
    4611668426274897877,
    4611650834189516459,
    4611615650220078421,
    4611545283086494379,
    4611404552040437080,
    4611123102832306901,
    4610560255948314624,
    4609434768280048980,
    4607184617107619806,
    4602687609541841169,
    4593706758521714574,
    4575797593107614195,
    4540188453729421605,
    4469799356029710115,
    4332278087304955805,
    4069798626954855183,
    3591584682430698961,
    2797128963144291325,
    1696544475317221319,
    624123833502197200,
    84465975781740359,
    1547048310802923,
    518976891834,
];

/// The product `acc * e^(-rest * 2^(i - 32))` in units of 2^-62, taken bit
/// by bit from the lowest bit of `rest` up and rounded down after each
/// factor; the bits of weight `2^5` and above are left out.
pub open spec fn decay_product(rest: int, i: int, acc: int) -> int
    decreases 37 - i,
{
    if i < 0 || i >= 37 {
        acc
    } else if rest % 2 == 1 {
        decay_product(rest / 2, i + 1, acc * DECAY_FACTORS[i] / (FINE as int))
    } else {
        decay_product(rest / 2, i + 1, acc)
    }
}

/// `e^(-x)` for `x >= 0`, rounded down, and one for a negative `x`: the
/// exponent is taken apart into its bits, and from 32 on the result is
/// zero.
pub open spec fn exp_neg(x: Fixed) -> Fixed {
    if x.raw <= 0 {
        Fixed::one()
    } else if x.raw >= 32 * SCALE {
        Fixed::zero()
    } else {
        Fixed { raw: (decay_product(x.raw as int, 0, FINE as int) / 0x4000_0000) as i64 }
    }
}

/// The product of the first `i` factors of the table, from one and rounded
/// down after each: what `decay_product` gives an exponent whose lowest `i`
/// bits are all set.
pub open spec fn low_product(i: int) -> int
    decreases i,
{
    if i <= 0 {
        FINE as int
    } else {
        low_product(i - 1) * DECAY_FACTORS[i - 1] / (FINE as int)
    }
}

/// The products of the first factors of the table, one by one.
proof fn lemma_low_products()
    ensures
        low_product(0) == 4611686018427387904,
        low_product(1) == 4611686017353646080,
        low_product(2) == 4611686015206162432,
        low_product(3) == 4611686010911195140,
        low_product(4) == 4611686002321260569,
        low_product(5) == 4611685985141391476,
        low_product(6) == 4611685950781653483,
        low_product(7) == 4611685882062178266,
        low_product(8) == 4611685744623230905,
        low_product(9) == 4611685469745348472,
        low_product(10) == 4611684919989632759,
        low_product(11) == 4611683820478397942,
        low_product(12) == 4611681621456714741,
        low_product(13) == 4611677223416494064,
        low_product(14) == 4611668427348635595,
        low_product(15) == 4611650835263250080,
        low_product(16) == 4611615651293803851,
        low_product(17) == 4611545284160203424,
        low_product(18) == 4611404553114113358,
        low_product(19) == 4611123103905917649,
        low_product(20) == 4610560257021794323,
        low_product(21) == 4609434769353266631,
        low_product(22) == 4607184618180313552,
        low_product(23) == 4602687610613487874,
        low_product(24) == 4593706759591270261,
        low_product(25) == 4575797594173000079,
        low_product(26) == 4540188454786516590,
        low_product(27) == 4469799357070416360,
        low_product(28) == 4332278088313642885,
        low_product(29) == 4069798627902429002,
        low_product(30) == 3591584683266929920,
        low_product(31) == 2797128963795548650,
        low_product(32) == 1696544475712228853,
        low_product(33) == 624123833647512351,
        low_product(34) == 84465975801406626,
        low_product(35) == 1547048311163123,
        low_product(36) == 518976891954,
        low_product(37) == 58403,
{
    assert(low_product(0) == 4611686018427387904);
    assert(DECAY_FACTORS[0] == 4611686017353646080);
    assert(low_product(1) == low_product(0) * DECAY_FACTORS[0] / (FINE as int));
    assert(low_product(1) == 4611686017353646080);
    assert(DECAY_FACTORS[1] == 4611686016279904256);
    assert(low_product(2) == low_product(1) * DECAY_FACTORS[1] / (FINE as int));
    assert(low_product(2) == 4611686015206162432);
    assert(DECAY_FACTORS[2] == 4611686014132420610);
    assert(low_product(3) == low_product(2) * DECAY_FACTORS[2] / (FINE as int));
    assert(low_product(3) == 4611686010911195140);
    assert(DECAY_FACTORS[3] == 4611686009837453320);
    assert(low_product(4) == low_product(3) * DECAY_FACTORS[3] / (FINE as int));
    assert(low_product(4) == 4611686002321260569);
    assert(DECAY_FACTORS[4] == 4611686001247518752);
    assert(low_product(5) == low_product(4) * DECAY_FACTORS[4] / (FINE as int));
    assert(low_product(5) == 4611685985141391476);
    assert(DECAY_FACTORS[5] == 4611685984067649664);
    assert(low_product(6) == low_product(5) * DECAY_FACTORS[5] / (FINE as int));
    assert(low_product(6) == 4611685950781653483);
    assert(DECAY_FACTORS[6] == 4611685949707911680);
    assert(low_product(7) == low_product(6) * DECAY_FACTORS[6] / (FINE as int));
    assert(low_product(7) == 4611685882062178266);
    assert(DECAY_FACTORS[7] == 4611685880988436480);
    assert(low_product(8) == low_product(7) * DECAY_FACTORS[7] / (FINE as int));
    assert(low_product(8) == 4611685744623230905);
    assert(DECAY_FACTORS[8] == 4611685743549489152);
    assert(low_product(9) == low_product(8) * DECAY_FACTORS[8] / (FINE as int));
    assert(low_product(9) == 4611685469745348472);
    assert(DECAY_FACTORS[9] == 4611685468671606784);
    assert(low_product(10) == low_product(9) * DECAY_FACTORS[9] / (FINE as int));
    assert(low_product(10) == 4611684919989632759);
    assert(DECAY_FACTORS[10] == 4611684918915891200);
    assert(low_product(11) == low_product(10) * DECAY_FACTORS[10] / (FINE as int));
    assert(low_product(11) == 4611683820478397942);
    assert(DECAY_FACTORS[11] == 4611683819404656640);
    assert(low_product(12) == low_product(11) * DECAY_FACTORS[11] / (FINE as int));
    assert(low_product(12) == 4611681621456714741);
    assert(DECAY_FACTORS[12] == 4611681620382973951);
    assert(low_product(13) == low_product(12) * DECAY_FACTORS[12] / (FINE as int));
    assert(low_product(13) == 4611677223416494064);
    assert(DECAY_FACTORS[13] == 4611677222342754299);
    assert(low_product(14) == low_product(13) * DECAY_FACTORS[13] / (FINE as int));
    assert(low_product(14) == 4611668427348635595);
    assert(DECAY_FACTORS[14] == 4611668426274897877);
    assert(low_product(15) == low_product(14) * DECAY_FACTORS[14] / (FINE as int));
    assert(low_product(15) == 4611650835263250080);
    assert(DECAY_FACTORS[15] == 4611650834189516459);
    assert(low_product(16) == low_product(15) * DECAY_FACTORS[15] / (FINE as int));
    assert(low_product(16) == 4611615651293803851);
    assert(DECAY_FACTORS[16] == 4611615650220078421);
    assert(low_product(17) == low_product(16) * DECAY_FACTORS[16] / (FINE as int));
    assert(low_product(17) == 4611545284160203424);
    assert(DECAY_FACTORS[17] == 4611545283086494379);
    assert(low_product(18) == low_product(17) * DECAY_FACTORS[17] / (FINE as int));
    assert(low_product(18) == 4611404553114113358);
    assert(DECAY_FACTORS[18] == 4611404552040437080);
    assert(low_product(19) == low_product(18) * DECAY_FACTORS[18] / (FINE as int));
    assert(low_product(19) == 4611123103905917649);
    assert(DECAY_FACTORS[19] == 4611123102832306901);
    assert(low_product(20) == low_product(19) * DECAY_FACTORS[19] / (FINE as int));
    assert(low_product(20) == 4610560257021794323);
    assert(DECAY_FACTORS[20] == 4610560255948314624);
    assert(low_product(21) == low_product(20) * DECAY_FACTORS[20] / (FINE as int));
    assert(low_product(21) == 4609434769353266631);
    assert(DECAY_FACTORS[21] == 4609434768280048980);
    assert(low_product(22) == low_product(21) * DECAY_FACTORS[21] / (FINE as int));
    assert(low_product(22) == 4607184618180313552);
    assert(DECAY_FACTORS[22] == 4607184617107619806);
    assert(low_product(23) == low_product(22) * DECAY_FACTORS[22] / (FINE as int));
    assert(low_product(23) == 4602687610613487874);
    assert(DECAY_FACTORS[23] == 4602687609541841169);
    assert(low_product(24) == low_product(23) * DECAY_FACTORS[23] / (FINE as int));
    assert(low_product(24) == 4593706759591270261);
    assert(DECAY_FACTORS[24] == 4593706758521714574);
    assert(low_product(25) == low_product(24) * DECAY_FACTORS[24] / (FINE as int));
    assert(low_product(25) == 4575797594173000079);
    assert(DECAY_FACTORS[25] == 4575797593107614195);
    assert(low_product(26) == low_product(25) * DECAY_FACTORS[25] / (FINE as int));
    assert(low_product(26) == 4540188454786516590);
    assert(DECAY_FACTORS[26] == 4540188453729421605);
    assert(low_product(27) == low_product(26) * DECAY_FACTORS[26] / (FINE as int));
    assert(low_product(27) == 4469799357070416360);
    assert(DECAY_FACTORS[27] == 4469799356029710115);
    assert(low_product(28) == low_product(27) * DECAY_FACTORS[27] / (FINE as int));
    assert(low_product(28) == 4332278088313642885);
    assert(DECAY_FACTORS[28] == 4332278087304955805);
    assert(low_product(29) == low_product(28) * DECAY_FACTORS[28] / (FINE as int));
    assert(low_product(29) == 4069798627902429002);
    assert(DECAY_FACTORS[29] == 4069798626954855183);
    assert(low_product(30) == low_product(29) * DECAY_FACTORS[29] / (FINE as int));
    assert(low_product(30) == 3591584683266929920);
    assert(DECAY_FACTORS[30] == 3591584682430698961);
    assert(low_product(31) == low_product(30) * DECAY_FACTORS[30] / (FINE as int));
    assert(low_product(31) == 2797128963795548650);
    assert(DECAY_FACTORS[31] == 2797128963144291325);
    assert(low_product(32) == low_product(31) * DECAY_FACTORS[31] / (FINE as int));
    assert(low_product(32) == 1696544475712228853);
    assert(DECAY_FACTORS[32] == 1696544475317221319);
    assert(low_product(33) == low_product(32) * DECAY_FACTORS[32] / (FINE as int));
    assert(low_product(33) == 624123833647512351);
    assert(DECAY_FACTORS[33] == 624123833502197200);
    assert(low_product(34) == low_product(33) * DECAY_FACTORS[33] / (FINE as int));
    assert(low_product(34) == 84465975801406626);
    assert(DECAY_FACTORS[34] == 84465975781740359);
    assert(low_product(35) == low_product(34) * DECAY_FACTORS[34] / (FINE as int));
    assert(low_product(35) == 1547048311163123);
    assert(DECAY_FACTORS[35] == 1547048310802923);
    assert(low_product(36) == low_product(35) * DECAY_FACTORS[35] / (FINE as int));
    assert(low_product(36) == 518976891954);
    assert(DECAY_FACTORS[36] == 518976891834);
    assert(low_product(37) == low_product(36) * DECAY_FACTORS[36] / (FINE as int));
    assert(low_product(37) == 58403);
}

/// No factor of the table is above the product of all factors before it:
/// setting a bit of an exponent takes the product at least as far down as
/// setting all the bits below it.
pub proof fn lemma_table_descends(i: int)
    requires
        0 <= i < 37,
    ensures
        0 <= DECAY_FACTORS[i] <= low_product(i),
        DECAY_FACTORS[i] <= FINE,
{
    lemma_low_products();
}

/// A product of decay factors is at most what it started from, and not
/// negative.
pub proof fn lemma_decay_product_bounds(rest: int, i: int, acc: int)
    requires
        0 <= acc,
        0 <= i,
    ensures
        0 <= decay_product(rest, i, acc) <= acc,
    decreases 37 - i,
{
    if i < 37 {
        let f = DECAY_FACTORS[i] as int;
        assert(0 <= f <= FINE);
        let next = acc * f / (FINE as int);
        assert(0 <= next <= acc) by (nonlinear_arith)
            requires
                0 <= acc,
                0 <= f <= FINE,
                FINE > 0,
                next == acc * f / (FINE as int),
        ;
        lemma_decay_product_bounds(rest / 2, i + 1, next);
        lemma_decay_product_bounds(rest / 2, i + 1, acc);
    }
}

/// A product of decay factors grows with what it starts from.
pub proof fn lemma_decay_product_start(rest: int, i: int, a: int, b: int)
    requires
        0 <= a <= b,
        0 <= i,
    ensures
        decay_product(rest, i, a) <= decay_product(rest, i, b),
    decreases 37 - i,
{
    if i < 37 {
        let f = DECAY_FACTORS[i] as int;
        assert(0 <= f <= FINE);
        let na = a * f / (FINE as int);
        let nb = b * f / (FINE as int);
        assert(0 <= na <= nb) by (nonlinear_arith)
            requires
                0 <= a <= b,
                0 <= f,
                FINE > 0,
                na == a * f / (FINE as int),
                nb == b * f / (FINE as int),
        ;
        lemma_decay_product_start(rest / 2, i + 1, na, nb);
        lemma_decay_product_start(rest / 2, i + 1, a, b);
    }
}

/// Two to the power `37 - i`: the bound on what is left of an exponent
/// below 32 when its lowest `i` bits are taken off.
pub open spec fn reach(i: int) -> int
    decreases 37 - i,
{
    if i >= 37 {
        1
    } else {
        2 * reach(i + 1)
    }
}

/// From bit `i` on, the greater of two exponents has the smaller product,
/// where the product of the smaller starts at least at the product of all
/// factors below `i` and that of the greater at most at one.
proof fn lemma_decay_product_order(rx: int, ry: int, i: int, ax: int, ay: int)
    requires
        0 <= rx < ry < reach(i),
        0 <= i <= 37,
        low_product(i) <= ax,
        0 <= ay <= FINE,
    ensures
        decay_product(ry, i, ay) <= decay_product(rx, i, ax),
    decreases 37 - i,
{
    if i < 37 {
        lemma_table_descends(i);
        let f = DECAY_FACTORS[i] as int;
        let low = low_product(i);
        let fx = ax * f / (FINE as int);
        let fy = ay * f / (FINE as int);
        assert(low_product(i + 1) == low * f / (FINE as int));
        assert(0 <= low_product(i + 1) <= fx <= ax && 0 <= fy <= ay && fy <= f) by (nonlinear_arith)
            requires
                0 <= f <= low <= ax,
                f <= FINE,
                0 <= ay <= FINE,
                FINE == 4611686018427387904,
                fx == ax * f / (FINE as int),
                fy == ay * f / (FINE as int),
                low_product(i + 1) == low * f / (FINE as int),
        ;
        let nx = if rx % 2 == 1 {
            fx
        } else {
            ax
        };
        let ny = if ry % 2 == 1 {
            fy
        } else {
            ay
        };
        if rx / 2 < ry / 2 {
            lemma_decay_product_order(rx / 2, ry / 2, i + 1, nx, ny);
        } else {
            assert(rx % 2 == 0 && ry % 2 == 1);
            lemma_decay_product_start(rx / 2, i + 1, fy, ax);
        }
    }
}

/// The exponential of a greater exponent is not greater.
pub proof fn lemma_exp_neg_non_increasing(x: Fixed, y: Fixed)
    requires
        x.raw <= y.raw,
    ensures
        exp_neg(y).raw <= exp_neg(x).raw,
        0 <= exp_neg(x).raw <= SCALE,
{
    lemma_decay_product_bounds(x.raw as int, 0, FINE as int);
    lemma_decay_product_bounds(y.raw as int, 0, FINE as int);
    if 0 < x.raw < y.raw < 32 * SCALE {
        reveal_with_fuel(reach, 38);
        assert(reach(0) == 137438953472);
        lemma_decay_product_order(x.raw as int, y.raw as int, 0, FINE as int, FINE as int);
    }
}

/// Computes `exp_neg(x)`: between zero and one, and never more than for a
/// smaller exponent.
pub fn exp_neg_of(x: Fixed) -> (r: Fixed)
    ensures
        r == exp_neg(x),
        0 <= r.raw <= SCALE,
        forall|y: Fixed| y.raw <= x.raw ==> r.raw <= (#[trigger] exp_neg(y)).raw,
{
    proof {
        assert forall|y: Fixed| y.raw <= x.raw implies exp_neg(x).raw <= (#[trigger] exp_neg(y)).raw by {
            lemma_exp_neg_non_increasing(y, x);
        }
    }
    if x.raw <= 0 {
        return Fixed { raw: SCALE };
    }
    if x.raw >= 32 * SCALE {
        return Fixed { raw: 0 };
    }
    let mut rest: u64 = x.raw as u64;
    let mut acc: u64 = FINE;
    let mut i: usize = 0;
    proof {
        lemma_decay_product_bounds(x.raw as int, 0, FINE as int);
    }
    while i < 37
        invariant
            0 <= i <= 37,
            0 <= acc <= FINE,
            decay_product(rest as int, i as int, acc as int) == decay_product(x.raw as int, 0, FINE as int),
        decreases 37 - i,
    {
        if rest % 2 == 1 {
            let f: u64 = DECAY_FACTORS[i];
            assert(0 <= f <= FINE);
            assert(acc * f <= 0x4000_0000_0000_0000 * 0x4000_0000_0000_0000) by (nonlinear_arith)
                requires
                    0 <= acc <= 0x4000_0000_0000_0000,
                    0 <= f <= 0x4000_0000_0000_0000,
            ;
            let wide: u128 = acc as u128 * f as u128;
            assert(wide / 0x4000_0000_0000_0000 <= acc) by (nonlinear_arith)
                requires
                    wide == acc * f,
                    0 <= f <= 0x4000_0000_0000_0000,
                    0 <= acc,
            ;
            acc = (wide / 4611686018427387904u128) as u64;
        }
        rest = rest / 2;
        i = i + 1;
    }
    Fixed { raw: (acc / 1073741824) as i64 }
}

/// Pi, in units of 2^-32.
pub const PI: i64 = 13493037705;

/// Twice pi, in units of 2^-32.
pub const TWO_PI: i64 = 26986075409;

/// Half of pi, in units of 2^-32.
pub const HALF_PI: i64 = 6746518852;

/// One step of the sine's series, from the inside out:
/// `1 - square * inner / divisor`.
pub open spec fn series_step(square: Fixed, inner: Fixed, divisor: int) -> Fixed {
    Fixed::one().difference(square.product(inner).shared_among(divisor))
}

/// The sine of an angle `r` between zero and half of pi, by its series up
/// to the power 13:
/// `r * (1 - r²/6 * (1 - r²/20 * (1 - r²/42 * (1 - r²/72 * (1 - r²/110 * (1 - r²/156))))))`.
pub open spec fn sine_series(r: Fixed) -> Fixed {
    let square = r.product(r);
    let t6 = series_step(square, Fixed::one(), 156);
    let t5 = series_step(square, t6, 110);
    let t4 = series_step(square, t5, 72);
    let t3 = series_step(square, t4, 42);
    let t2 = series_step(square, t3, 20);
    let t1 = series_step(square, t2, 6);
    r.product(t1)
}

/// The size of `raw`, with the largest `i64` for the least.
pub open spec fn magnitude(raw: i64) -> i64 {
    if raw == i64::MIN {
        i64::MAX
    } else if raw < 0 {
        (-raw) as i64
    } else {
        raw
    }
}

/// The sine of `x`: the angle is reduced by whole turns, brought into the
/// first quarter by the sine's symmetries, and put into the series.
pub open spec fn sine(x: Fixed) -> Fixed {
    let turn: int = magnitude(x.raw) as int % TWO_PI as int;
    let half: int = if turn >= PI {
        turn - PI
    } else {
        turn
    };
    let quarter: int = if half > HALF_PI {
        PI - half
    } else {
        half
    };
    let value = sine_series(Fixed { raw: quarter as i64 });
    if (x.raw < 0) != (turn >= PI) {
        Fixed::zero().difference(value)
    } else {
        value
    }
}

fn series_step_of(square: Fixed, inner: Fixed, divisor: usize) -> (r: Fixed)
    ensures
        r == series_step(square, inner, divisor as int),
{
    Fixed { raw: SCALE }.sat_sub(square.sat_mul(inner).div_count(divisor))
}

/// Computes `sine(x)`: at most `x` in size, and zero for zero.
pub fn sine_of(x: Fixed) -> (r: Fixed)
    ensures
        r == sine(x),
        -magnitude(x.raw) <= r.raw <= magnitude(x.raw),
        x.raw == 0 ==> r.raw == 0,
{
    proof {
        lemma_sine_bounded(x);
    }
    let size: i64 = if x.raw == i64::MIN {
        i64::MAX
    } else if x.raw < 0 {
        -x.raw
    } else {
        x.raw
    };
    let turn: i64 = size % TWO_PI;
    let half: i64 = if turn >= PI {
        turn - PI
    } else {
        turn
    };
    let quarter: i64 = if half > HALF_PI {
        PI - half
    } else {
        half
    };
    let r: Fixed = Fixed { raw: quarter };
    let square: Fixed = r.sat_mul(r);
    let t6: Fixed = series_step_of(square, Fixed { raw: SCALE }, 156);
    let t5: Fixed = series_step_of(square, t6, 110);
    let t4: Fixed = series_step_of(square, t5, 72);
    let t3: Fixed = series_step_of(square, t4, 42);
    let t2: Fixed = series_step_of(square, t3, 20);
    let t1: Fixed = series_step_of(square, t2, 6);
    let value: Fixed = r.sat_mul(t1);
    if (x.raw < 0) != (turn >= PI) {
        Fixed { raw: 0 }.sat_sub(value)
    } else {
        value
    }
}

/// The sine of an angle of the first quarter is not negative and at most
/// the angle.
proof fn lemma_sine_series_bounded(r: Fixed)
    requires
        0 <= r.raw <= HALF_PI,
    ensures
        0 <= sine_series(r).raw <= r.raw,
{
    let square = r.product(r);
    assert(0 <= r.raw * r.raw <= 3 * SCALE * SCALE) by (nonlinear_arith)
        requires
            0 <= r.raw <= 6746518852,
            SCALE == 4294967296,
    ;
    assert(0 <= square.raw <= 3 * SCALE);
    let t6 = series_step(square, Fixed::one(), 156);
    lemma_series_step_bounded(square, Fixed::one(), 156);
    let t5 = series_step(square, t6, 110);
    lemma_series_step_bounded(square, t6, 110);
    let t4 = series_step(square, t5, 72);
    lemma_series_step_bounded(square, t5, 72);
    let t3 = series_step(square, t4, 42);
    lemma_series_step_bounded(square, t4, 42);
    let t2 = series_step(square, t3, 20);
    lemma_series_step_bounded(square, t3, 20);
    let t1 = series_step(square, t2, 6);
    lemma_series_step_bounded(square, t2, 6);
    assert(0 <= r.raw * t1.raw / (SCALE as int) <= r.raw) by (nonlinear_arith)
        requires
            0 <= r.raw,
            0 <= t1.raw <= SCALE,
            SCALE == 4294967296,
    ;
}

/// A step of the series stays between zero and one, for a square of at
/// most three and an inner value between zero and one.
proof fn lemma_series_step_bounded(square: Fixed, inner: Fixed, divisor: int)
    requires
        0 <= square.raw <= 3 * SCALE,
        0 <= inner.raw <= SCALE,
        6 <= divisor,
    ensures
        0 <= series_step(square, inner, divisor).raw <= SCALE,
{
    let p = square.raw * inner.raw / (SCALE as int);
    assert(0 <= p <= 3 * SCALE) by (nonlinear_arith)
        requires
            0 <= square.raw <= 3 * SCALE,
            0 <= inner.raw <= SCALE,
            SCALE == 4294967296,
            p == square.raw * inner.raw / (SCALE as int),
    ;
    assert(0 <= p / divisor <= SCALE) by (nonlinear_arith)
        requires
            0 <= p <= 3 * SCALE,
            6 <= divisor,
            SCALE == 4294967296,
    ;
}

/// The sine of an angle is at most the angle, in size.
pub proof fn lemma_sine_bounded(x: Fixed)
    ensures
        -magnitude(x.raw) <= sine(x).raw <= magnitude(x.raw),
        -HALF_PI <= sine(x).raw <= HALF_PI,
        x.raw == 0 ==> sine(x).raw == 0,
{
    let turn: int = magnitude(x.raw) as int % TWO_PI as int;
    let half: int = if turn >= PI {
        turn - PI
    } else {
        turn
    };
    let quarter: int = if half > HALF_PI {
        PI - half
    } else {
        half
    };
    assert(0 <= quarter <= HALF_PI && quarter <= magnitude(x.raw));
    lemma_sine_series_bounded(Fixed { raw: quarter as i64 });
}

/// The square `dx² + dy²` of the length of an offset.
pub open spec fn squared_offset(dx: int, dy: int) -> int {
    dx * dx + dy * dy
}

/// The square of the length of an offset is not negative, and does not
/// change when a component changes its sign or the two change places.
pub proof fn lemma_squared_offset(dx: int, dy: int)
    ensures
        0 <= squared_offset(dx, dy),
        squared_offset(-dx, dy) == squared_offset(dx, dy),
        squared_offset(dx, -dy) == squared_offset(dx, dy),
        squared_offset(dy, dx) == squared_offset(dx, dy),
        squared_offset(dx, dy) == 0 <==> dx == 0 && dy == 0,
{
    assert(dx * dx >= 0 && (-dx) * (-dx) == dx * dx && (dx * dx == 0 <==> dx == 0)) by (nonlinear_arith);
    assert(dy * dy >= 0 && (-dy) * (-dy) == dy * dy && (dy * dy == 0 <==> dy == 0)) by (nonlinear_arith);
}

/// The exponent `(dx² + dy²) / (2 · radius²)` of the Gaussian kernel in
/// units of 2^-32, rounded down, for a radius other than zero.
pub open spec fn gaussian_exponent(dx: int, dy: int, radius: Fixed) -> int {
    squared_offset(dx, dy) * 0x8000_0000_0000_0000_0000_0000 / (radius.raw * radius.raw)
}

/// The exponent `sqrt(dx² + dy²) / radius` of the exponential kernel in
/// units of 2^-32, rounded down, for a radius other than zero; the radius
/// counts by its size.
pub open spec fn expon_exponent(dx: int, dy: int, radius: Fixed) -> int {
    floor_sqrt(
        squared_offset(dx, dy) * 0x1_0000_0000_0000_0000_0000_0000_0000_0000 / (radius.raw
            * radius.raw),
    )
}

/// The angle `sqrt(dx² + dy²) / (radius · 2)` of the sinc kernel, rounded
/// down and saturated; the radius counts by its size, and with the radius
/// zero the angle is the largest there is.
pub open spec fn sinc_angle(dx: int, dy: int, radius: Fixed) -> Fixed {
    if radius.raw == 0 {
        Fixed { raw: i64::MAX }
    } else {
        Fixed {
            raw: saturate(
                floor_sqrt(
                    squared_offset(dx, dy) * 0x4000_0000_0000_0000_0000_0000_0000_0000 / (
                    radius.raw * radius.raw),
                ),
            ),
        }
    }
}

/// The weight for an exponent: one for the exponent zero over the radius
/// zero, zero for any other exponent over the radius zero, and else the
/// exponential of the saturated exponent.
pub open spec fn weight_of(square: int, radius: Fixed, exponent: int) -> Fixed {
    if radius.raw == 0 {
        if square == 0 {
            Fixed::one()
        } else {
            Fixed::zero()
        }
    } else {
        exp_neg(Fixed { raw: saturate(exponent) })
    }
}

/// The Gaussian weight `exp(-(dx² + dy²) / (2 · radius²))`: the exponent
/// is exact but for its rounding down to a unit of 2^-32.
pub open spec fn gaussian_weight(dx: int, dy: int, radius: Fixed) -> Fixed {
    weight_of(squared_offset(dx, dy), radius, gaussian_exponent(dx, dy, radius))
}

/// The sinc weight: one at the offset zero; else `sin(d) / d` for
/// `d = sqrt(dx² + dy²) / (radius · 2)`, and one where `d` is zero. It is
/// negative at some offsets.
pub open spec fn sinc_weight(dx: int, dy: int, radius: Fixed) -> Fixed {
    let d = sinc_angle(dx, dy, radius);
    if squared_offset(dx, dy) == 0 || d.raw == 0 {
        Fixed::one()
    } else {
        sine(d).quotient(d)
    }
}

/// The exponential weight `exp(-sqrt(dx² + dy²) / radius)`: the exponent
/// is exact but for its rounding down to a unit of 2^-32.
pub open spec fn expon_weight(dx: int, dy: int, radius: Fixed) -> Fixed {
    weight_of(squared_offset(dx, dy), radius, expon_exponent(dx, dy, radius))
}

/// Two to the power `bits`.
pub open spec fn two_to(bits: nat) -> int
    decreases bits,
{
    if bits == 0 {
        1
    } else {
        2 * two_to((bits - 1) as nat)
    }
}

/// The powers of two that the kernels divide by.
proof fn lemma_two_to()
    ensures
        two_to(37) == 0x20_0000_0000,
        two_to(74) == 0x400_0000_0000_0000_0000,
        two_to(126) == 0x4000_0000_0000_0000_0000_0000_0000_0000,
{
    reveal_with_fuel(two_to, 38);
    assert(two_to(37) == 0x20_0000_0000);
    lemma_two_to_adds(37, 37);
    assert(two_to(74) == 0x20_0000_0000int * 0x20_0000_0000int);
    lemma_two_to_adds(37, 26);
    assert(two_to(26) == 0x400_0000);
    assert(two_to(63) == 0x20_0000_0000int * 0x400_0000int);
    lemma_two_to_adds(63, 63);
    assert(two_to(126) == 0x8000_0000_0000_0000int * 0x8000_0000_0000_0000int);
}

/// The power of a sum is the product of the powers.
proof fn lemma_two_to_adds(a: nat, b: nat)
    ensures
        two_to(a + b) == two_to(a) * two_to(b),
        two_to(a) >= 1,
    decreases a,
{
    if a > 0 {
        lemma_two_to_adds((a - 1) as nat, b);
        assert(two_to(a + b) == 2 * two_to((a - 1 + b) as nat));
        assert(2 * (two_to((a - 1) as nat) * two_to(b)) == (2 * two_to((a - 1) as nat)) * two_to(b))
            by (nonlinear_arith);
    } else {
        assert(1 * two_to(b) == two_to(b)) by (nonlinear_arith);
    }
}

/// A power of two grows with its exponent.
proof fn lemma_two_to_grows(a: nat, b: nat)
    requires
        a <= b,
    ensures
        1 <= two_to(a) <= two_to(b),
    decreases b,
{
    if a < b {
        lemma_two_to_grows(a, (b - 1) as nat);
    } else {
        lemma_two_to_adds(a, 0);
    }
}

/// The weight `2^(i - 32)` of the bit `i` of an exponent, in units of
/// 2^-62.
pub open spec fn bit_weight(i: int) -> int {
    two_to((i + 30) as nat)
}

/// The weights of the bits, one by one.
proof fn lemma_bit_weights()
    ensures
        bit_weight(0) == 1073741824,
        bit_weight(1) == 2147483648,
        bit_weight(2) == 4294967296,
        bit_weight(3) == 8589934592,
        bit_weight(4) == 17179869184,
        bit_weight(5) == 34359738368,
        bit_weight(6) == 68719476736,
        bit_weight(7) == 137438953472,
        bit_weight(8) == 274877906944,
        bit_weight(9) == 549755813888,
        bit_weight(10) == 1099511627776,
        bit_weight(11) == 2199023255552,
        bit_weight(12) == 4398046511104,
        bit_weight(13) == 8796093022208,
        bit_weight(14) == 17592186044416,
        bit_weight(15) == 35184372088832,
        bit_weight(16) == 70368744177664,
        bit_weight(17) == 140737488355328,
        bit_weight(18) == 281474976710656,
        bit_weight(19) == 562949953421312,
        bit_weight(20) == 1125899906842624,
        bit_weight(21) == 2251799813685248,
        bit_weight(22) == 4503599627370496,
        bit_weight(23) == 9007199254740992,
        bit_weight(24) == 18014398509481984,
        bit_weight(25) == 36028797018963968,
        bit_weight(26) == 72057594037927936,
        bit_weight(27) == 144115188075855872,
        bit_weight(28) == 288230376151711744,
        bit_weight(29) == 576460752303423488,
        bit_weight(30) == 1152921504606846976,
        bit_weight(31) == 2305843009213693952,
        bit_weight(32) == 4611686018427387904,
        bit_weight(33) == 9223372036854775808,
        bit_weight(34) == 18446744073709551616,
        bit_weight(35) == 36893488147419103232,
        bit_weight(36) == 73786976294838206464,
        bit_weight(37) == 147573952589676412928,
{
    reveal_with_fuel(two_to, 31);
    assert(two_to(30) == 1073741824);
    assert(two_to(31) == 2 * two_to(30));
    assert(two_to(32) == 2 * two_to(31));
    assert(two_to(33) == 2 * two_to(32));
    assert(two_to(34) == 2 * two_to(33));
    assert(two_to(35) == 2 * two_to(34));
    assert(two_to(36) == 2 * two_to(35));
    assert(two_to(37) == 2 * two_to(36));
    assert(two_to(38) == 2 * two_to(37));
    assert(two_to(39) == 2 * two_to(38));
    assert(two_to(40) == 2 * two_to(39));
    assert(two_to(41) == 2 * two_to(40));
    assert(two_to(42) == 2 * two_to(41));
    assert(two_to(43) == 2 * two_to(42));
    assert(two_to(44) == 2 * two_to(43));
    assert(two_to(45) == 2 * two_to(44));
    assert(two_to(46) == 2 * two_to(45));
    assert(two_to(47) == 2 * two_to(46));
    assert(two_to(48) == 2 * two_to(47));
    assert(two_to(49) == 2 * two_to(48));
    assert(two_to(50) == 2 * two_to(49));
    assert(two_to(51) == 2 * two_to(50));
    assert(two_to(52) == 2 * two_to(51));
    assert(two_to(53) == 2 * two_to(52));
    assert(two_to(54) == 2 * two_to(53));
    assert(two_to(55) == 2 * two_to(54));
    assert(two_to(56) == 2 * two_to(55));
    assert(two_to(57) == 2 * two_to(56));
    assert(two_to(58) == 2 * two_to(57));
    assert(two_to(59) == 2 * two_to(58));
    assert(two_to(60) == 2 * two_to(59));
    assert(two_to(61) == 2 * two_to(60));
    assert(two_to(62) == 2 * two_to(61));
    assert(two_to(63) == 2 * two_to(62));
    assert(two_to(64) == 2 * two_to(63));
    assert(two_to(65) == 2 * two_to(64));
    assert(two_to(66) == 2 * two_to(65));
    assert(two_to(67) == 2 * two_to(66));
}

/// Each factor of the table lies where the exponential of its bit's weight
/// `a` does: at least at `1 - a`, and at most at `1 / (1 + a)`.
pub proof fn lemma_table_brackets(i: int)
    requires
        0 <= i < 37,
    ensures
        DECAY_FACTORS[i] * (FINE + bit_weight(i)) <= FINE * FINE,
        DECAY_FACTORS[i] + bit_weight(i) >= FINE,
        bit_weight(i + 1) == 2 * bit_weight(i),
        1 <= bit_weight(i),
{
    lemma_bit_weights();
    if i == 0 {
        assert(DECAY_FACTORS[0] == 4611686017353646080);
        assert(4611686017353646080int * (4611686018427387904int + 1073741824int) <= 4611686018427387904int * 4611686018427387904int);
    } else if i == 1 {
        assert(DECAY_FACTORS[1] == 4611686016279904256);
        assert(4611686016279904256int * (4611686018427387904int + 2147483648int) <= 4611686018427387904int * 4611686018427387904int);
    } else if i == 2 {
        assert(DECAY_FACTORS[2] == 4611686014132420610);
        assert(4611686014132420610int * (4611686018427387904int + 4294967296int) <= 4611686018427387904int * 4611686018427387904int);
    } else if i == 3 {
        assert(DECAY_FACTORS[3] == 4611686009837453320);
        assert(4611686009837453320int * (4611686018427387904int + 8589934592int) <= 4611686018427387904int * 4611686018427387904int);
    } else if i == 4 {
        assert(DECAY_FACTORS[4] == 4611686001247518752);
        assert(4611686001247518752int * (4611686018427387904int + 17179869184int) <= 4611686018427387904int * 4611686018427387904int);
    } else if i == 5 {
        assert(DECAY_FACTORS[5] == 4611685984067649664);
        assert(4611685984067649664int * (4611686018427387904int + 34359738368int) <= 4611686018427387904int * 4611686018427387904int);
    } else if i == 6 {
        assert(DECAY_FACTORS[6] == 4611685949707911680);
        assert(4611685949707911680int * (4611686018427387904int + 68719476736int) <= 4611686018427387904int * 4611686018427387904int);
    } else if i == 7 {
        assert(DECAY_FACTORS[7] == 4611685880988436480);
        assert(4611685880988436480int * (4611686018427387904int + 137438953472int) <= 4611686018427387904int * 4611686018427387904int);
    } else if i == 8 {
        assert(DECAY_FACTORS[8] == 4611685743549489152);
        assert(4611685743549489152int * (4611686018427387904int + 274877906944int) <= 4611686018427387904int * 4611686018427387904int);
    } else if i == 9 {
        assert(DECAY_FACTORS[9] == 4611685468671606784);
        assert(4611685468671606784int * (4611686018427387904int + 549755813888int) <= 4611686018427387904int * 4611686018427387904int);
    } else if i == 10 {
        assert(DECAY_FACTORS[10] == 4611684918915891200);
        assert(4611684918915891200int * (4611686018427387904int + 1099511627776int) <= 4611686018427387904int * 4611686018427387904int);
    } else if i == 11 {
        assert(DECAY_FACTORS[11] == 4611683819404656640);
        assert(4611683819404656640int * (4611686018427387904int + 2199023255552int) <= 4611686018427387904int * 4611686018427387904int);
    } else if i == 12 {
        assert(DECAY_FACTORS[12] == 4611681620382973951);
        assert(4611681620382973951int * (4611686018427387904int + 4398046511104int) <= 4611686018427387904int * 4611686018427387904int);
    } else if i == 13 {
        assert(DECAY_FACTORS[13] == 4611677222342754299);
        assert(4611677222342754299int * (4611686018427387904int + 8796093022208int) <= 4611686018427387904int * 4611686018427387904int);
    } else if i == 14 {
        assert(DECAY_FACTORS[14] == 4611668426274897877);
        assert(4611668426274897877int * (4611686018427387904int + 17592186044416int) <= 4611686018427387904int * 4611686018427387904int);
    } else if i == 15 {
        assert(DECAY_FACTORS[15] == 4611650834189516459);
        assert(4611650834189516459int * (4611686018427387904int + 35184372088832int) <= 4611686018427387904int * 4611686018427387904int);
    } else if i == 16 {
        assert(DECAY_FACTORS[16] == 4611615650220078421);
        assert(4611615650220078421int * (4611686018427387904int + 70368744177664int) <= 4611686018427387904int * 4611686018427387904int);
    } else if i == 17 {
        assert(DECAY_FACTORS[17] == 4611545283086494379);
        assert(4611545283086494379int * (4611686018427387904int + 140737488355328int) <= 4611686018427387904int * 4611686018427387904int);
    } else if i == 18 {
        assert(DECAY_FACTORS[18] == 4611404552040437080);
        assert(4611404552040437080int * (4611686018427387904int + 281474976710656int) <= 4611686018427387904int * 4611686018427387904int);
    } else if i == 19 {
        assert(DECAY_FACTORS[19] == 4611123102832306901);
        assert(4611123102832306901int * (4611686018427387904int + 562949953421312int) <= 4611686018427387904int * 4611686018427387904int);
    } else if i == 20 {
        assert(DECAY_FACTORS[20] == 4610560255948314624);
        assert(4610560255948314624int * (4611686018427387904int + 1125899906842624int) <= 4611686018427387904int * 4611686018427387904int);
    } else if i == 21 {
        assert(DECAY_FACTORS[21] == 4609434768280048980);
        assert(4609434768280048980int * (4611686018427387904int + 2251799813685248int) <= 4611686018427387904int * 4611686018427387904int);
    } else if i == 22 {
        assert(DECAY_FACTORS[22] == 4607184617107619806);
        assert(4607184617107619806int * (4611686018427387904int + 4503599627370496int) <= 4611686018427387904int * 4611686018427387904int);
    } else if i == 23 {
        assert(DECAY_FACTORS[23] == 4602687609541841169);
        assert(4602687609541841169int * (4611686018427387904int + 9007199254740992int) <= 4611686018427387904int * 4611686018427387904int);
    } else if i == 24 {
        assert(DECAY_FACTORS[24] == 4593706758521714574);
        assert(4593706758521714574int * (4611686018427387904int + 18014398509481984int) <= 4611686018427387904int * 4611686018427387904int);
    } else if i == 25 {
        assert(DECAY_FACTORS[25] == 4575797593107614195);
        assert(4575797593107614195int * (4611686018427387904int + 36028797018963968int) <= 4611686018427387904int * 4611686018427387904int);
    } else if i == 26 {
        assert(DECAY_FACTORS[26] == 4540188453729421605);
        assert(4540188453729421605int * (4611686018427387904int + 72057594037927936int) <= 4611686018427387904int * 4611686018427387904int);
    } else if i == 27 {
        assert(DECAY_FACTORS[27] == 4469799356029710115);
        assert(4469799356029710115int * (4611686018427387904int + 144115188075855872int) <= 4611686018427387904int * 4611686018427387904int);
    } else if i == 28 {
        assert(DECAY_FACTORS[28] == 4332278087304955805);
        assert(4332278087304955805int * (4611686018427387904int + 288230376151711744int) <= 4611686018427387904int * 4611686018427387904int);
    } else if i == 29 {
        assert(DECAY_FACTORS[29] == 4069798626954855183);
        assert(4069798626954855183int * (4611686018427387904int + 576460752303423488int) <= 4611686018427387904int * 4611686018427387904int);
    } else if i == 30 {
        assert(DECAY_FACTORS[30] == 3591584682430698961);
        assert(3591584682430698961int * (4611686018427387904int + 1152921504606846976int) <= 4611686018427387904int * 4611686018427387904int);
    } else if i == 31 {
        assert(DECAY_FACTORS[31] == 2797128963144291325);
        assert(2797128963144291325int * (4611686018427387904int + 2305843009213693952int) <= 4611686018427387904int * 4611686018427387904int);
    } else if i == 32 {
        assert(DECAY_FACTORS[32] == 1696544475317221319);
        assert(1696544475317221319int * (4611686018427387904int + 4611686018427387904int) <= 4611686018427387904int * 4611686018427387904int);
    } else if i == 33 {
        assert(DECAY_FACTORS[33] == 624123833502197200);
        assert(624123833502197200int * (4611686018427387904int + 9223372036854775808int) <= 4611686018427387904int * 4611686018427387904int);
    } else if i == 34 {
        assert(DECAY_FACTORS[34] == 84465975781740359);
        assert(84465975781740359int * (4611686018427387904int + 18446744073709551616int) <= 4611686018427387904int * 4611686018427387904int);
    } else if i == 35 {
        assert(DECAY_FACTORS[35] == 1547048310802923);
        assert(1547048310802923int * (4611686018427387904int + 36893488147419103232int) <= 4611686018427387904int * 4611686018427387904int);
    } else if i == 36 {
        assert(DECAY_FACTORS[36] == 518976891834);
        assert(518976891834int * (4611686018427387904int + 73786976294838206464int) <= 4611686018427387904int * 4611686018427387904int);
    }
}

/// A product of decay factors is at least what it started from less the
/// exponent, as `e^(-x) >= 1 - x`.
proof fn lemma_decay_product_least(rest: int, i: int, acc: int)
    requires
        0 <= i <= 37,
        0 <= rest,
        0 <= acc <= FINE,
    ensures
        decay_product(rest, i, acc) >= acc - rest * bit_weight(i),
    decreases 37 - i,
{
    lemma_bit_weights();
    let w = bit_weight(i);
    if i < 37 {
        lemma_table_brackets(i);
        let f = DECAY_FACTORS[i] as int;
        let below = rest / 2;
        let next = acc * f / (FINE as int);
        assert(acc - w <= next <= acc && 0 <= next) by (nonlinear_arith)
            requires
                0 <= acc <= FINE,
                0 <= f <= FINE,
                f + w >= FINE,
                1 <= w,
                FINE == 4611686018427387904,
                next == acc * f / (FINE as int),
        ;
        assert(below * (2 * w) <= rest * w && (rest % 2 == 1 ==> below * (2 * w) + w == rest * w))
            by (nonlinear_arith)
            requires
                0 <= rest,
                below == rest / 2,
                1 <= w,
        ;
        lemma_decay_product_least(below, i + 1, next);
        lemma_decay_product_least(below, i + 1, acc);
    } else {
        assert(rest * w >= 0) by (nonlinear_arith)
            requires
                0 <= rest,
                1 <= w,
        ;
    }
}

/// A product of decay factors, times one more the exponent, is at most
/// what it started from, as `e^(-x) <= 1 / (1 + x)`.
proof fn lemma_decay_product_most(rest: int, i: int, acc: int)
    requires
        0 <= i <= 37,
        0 <= rest < reach(i),
        0 <= acc,
    ensures
        decay_product(rest, i, acc) * (FINE + rest * bit_weight(i)) <= acc * FINE,
    decreases 37 - i,
{
    lemma_bit_weights();
    let w = bit_weight(i);
    let fine = FINE as int;
    if i < 37 {
        lemma_table_brackets(i);
        lemma_decay_product_bounds(rest, i, acc);
        let f = DECAY_FACTORS[i] as int;
        let below = rest / 2;
        let b = below * (2 * w);
        assert(0 <= b) by (nonlinear_arith)
            requires
                b == below * (2 * w),
                0 <= below,
                1 <= w,
        ;
        if rest % 2 == 1 {
            let next = acc * f / fine;
            assert(0 <= next && next * (fine + w) <= acc * fine) by (nonlinear_arith)
                requires
                    0 <= acc,
                    0 <= f,
                    f * (fine + w) <= fine * fine,
                    1 <= w,
                    fine == 4611686018427387904,
                    next == acc * f / fine,
            ;
            lemma_decay_product_most(below, i + 1, next);
            lemma_decay_product_bounds(below, i + 1, next);
            let d = decay_product(below, i + 1, next);
            assert(d * (fine + (w + b)) <= acc * fine) by (nonlinear_arith)
                requires
                    0 <= d,
                    d * (fine + b) <= next * fine,
                    next * (fine + w) <= acc * fine,
                    0 <= next,
                    0 <= b,
                    1 <= w,
                    fine == 4611686018427387904,
            ;
            assert(rest * w == w + b) by (nonlinear_arith)
                requires
                    rest == 2 * below + 1,
                    b == below * (2 * w),
            ;
        } else {
            lemma_decay_product_most(below, i + 1, acc);
            assert(rest * w == b) by (nonlinear_arith)
                requires
                    rest == 2 * below,
                    b == below * (2 * w),
            ;
        }
    } else {
        assert(rest == 0);
        assert(acc * (fine + 0 * w) == acc * fine) by (nonlinear_arith);
    }
}

/// The exponential lies where `e^(-x)` does for `x >= 0`: at least at
/// `1 - x` and at most at `1 / (1 + x)`.
pub proof fn lemma_exp_neg_brackets(x: Fixed)
    requires
        0 <= x.raw,
    ensures
        SCALE - x.raw <= exp_neg(x).raw,
        exp_neg(x).raw * (SCALE + x.raw) <= SCALE * SCALE,
{
    lemma_bit_weights();
    let fine = FINE as int;
    let d = decay_product(x.raw as int, 0, fine);
    lemma_decay_product_bounds(x.raw as int, 0, fine);
    let e = d / 0x4000_0000;
    if 0 < x.raw < 32 * SCALE {
        reveal_with_fuel(reach, 38);
        assert(reach(0) == 137438953472);
        lemma_decay_product_least(x.raw as int, 0, fine);
        lemma_decay_product_most(x.raw as int, 0, fine);
        assert(x.raw * bit_weight(0) == x.raw * 0x4000_0000);
        assert(SCALE - x.raw <= e) by (nonlinear_arith)
            requires
                d >= fine - x.raw * 0x4000_0000,
                fine == 4611686018427387904,
                SCALE == 4294967296,
                e == d / 0x4000_0000,
        ;
        assert(e * (SCALE + x.raw) <= SCALE * SCALE) by (nonlinear_arith)
            requires
                d * (fine + x.raw * 0x4000_0000) <= fine * fine,
                0 <= d,
                0 <= x.raw,
                fine == 4611686018427387904,
                SCALE == 4294967296,
                e == d / 0x4000_0000,
        ;
    } else if x.raw == 0 {
        assert(SCALE * (SCALE + 0) == SCALE * SCALE);
    } else {
        assert(0 * (SCALE + x.raw) == 0) by (nonlinear_arith);
    }
}

/// The quotient `n * 2^bits / d`, rounded down, for `n` below `d`: a long
/// division, one bit of the quotient at a time.
fn scaled_quotient(n: u128, d: u128, bits: u32) -> (q: u128)
    requires
        n < d <= 0x4000_0000_0000_0000_0000_0000_0000_0000,
        bits <= 126,
    ensures
        q == n * two_to(bits as nat) / (d as int),
        q < two_to(bits as nat),
{
    let mut q: u128 = 0;
    let mut rem: u128 = n;
    let mut i: u32 = 0;
    proof {
        lemma_two_to();
    }
    while i < bits
        invariant
            i <= bits <= 126,
            rem < d <= 0x4000_0000_0000_0000_0000_0000_0000_0000,
            n * two_to(i as nat) == q * d + rem,
            q < two_to(i as nat),
            two_to(126) == 0x4000_0000_0000_0000_0000_0000_0000_0000,
        decreases bits - i,
    {
        proof {
            lemma_two_to_grows(i as nat, 125);
            lemma_two_to_grows((i + 1) as nat, 126);
            assert(two_to(126) == 2 * two_to(125));
            let t = two_to(i as nat);
            assert(two_to((i + 1) as nat) == 2 * t);
            assert(n * (2 * t) == 2 * (q * d) + 2 * rem) by (nonlinear_arith)
                requires
                    n * t == q * d + rem,
            ;
            assert((2 * q) * d == 2 * (q * d) && (2 * q + 1) * d == 2 * (q * d) + d) by (nonlinear_arith);
        }
        rem = rem * 2;
        q = q * 2;
        if rem >= d {
            rem = rem - d;
            q = q + 1;
        }
        i = i + 1;
    }
    proof {
        vstd::arithmetic::div_mod::lemma_fundamental_div_mod_converse(
            n * two_to(bits as nat),
            d as int,
            q as int,
            rem as int,
        );
    }
    q
}

/// Computes `squared_offset(dx, dy)`.
fn squared_offset_of(dx: isize, dy: isize) -> (d: u128)
    ensures
        d == squared_offset(dx as int, dy as int),
{
    let a: i128 = dx as i128;
    let b: i128 = dy as i128;
    assert(0 <= a * a <= 0x4000_0000_0000_0000_0000_0000_0000_0000) by (nonlinear_arith)
        requires
            -0x8000_0000_0000_0000 <= a <= 0x8000_0000_0000_0000,
    ;
    assert(0 <= b * b <= 0x4000_0000_0000_0000_0000_0000_0000_0000) by (nonlinear_arith)
        requires
            -0x8000_0000_0000_0000 <= b <= 0x8000_0000_0000_0000,
    ;
    (a * a) as u128 + (b * b) as u128
}

/// The square of the radius, in units of 2^-64.
fn squared_radius_of(radius: Fixed) -> (r: u128)
    ensures
        r == radius.raw * radius.raw,
        r <= 0x4000_0000_0000_0000_0000_0000_0000_0000,
        r == 0 <==> radius.raw == 0,
{
    let a: i128 = radius.raw as i128;
    assert(0 <= a * a <= 0x4000_0000_0000_0000_0000_0000_0000_0000 && (a * a == 0 <==> a == 0))
        by (nonlinear_arith)
        requires
            -0x8000_0000_0000_0000 <= a <= 0x8000_0000_0000_0000,
    ;
    (a * a) as u128
}

/// A greater exponent gives no greater weight, over one radius.
proof fn lemma_weight_of_non_increasing(sa: int, sb: int, radius: Fixed, ea: int, eb: int)
    requires
        0 <= sa <= sb,
        radius.raw != 0 ==> ea <= eb,
    ensures
        weight_of(sb, radius, eb).raw <= weight_of(sa, radius, ea).raw,
        0 <= weight_of(sa, radius, ea).raw <= SCALE,
{
    if radius.raw != 0 {
        lemma_exp_neg_non_increasing(Fixed { raw: saturate(ea) }, Fixed { raw: saturate(eb) });
    }
}

/// For one radius, the Gaussian weight of a longer offset is not greater;
/// and the weight does not change when a component of the offset changes
/// its sign or the two change places.
pub proof fn lemma_gaussian_non_increasing(dx: int, dy: int, ex: int, ey: int, radius: Fixed)
    requires
        squared_offset(dx, dy) <= squared_offset(ex, ey),
    ensures
        gaussian_weight(ex, ey, radius).raw <= gaussian_weight(dx, dy, radius).raw,
        0 <= gaussian_weight(dx, dy, radius).raw <= SCALE,
        gaussian_weight(-dx, dy, radius) == gaussian_weight(dx, dy, radius),
        gaussian_weight(dx, -dy, radius) == gaussian_weight(dx, dy, radius),
        gaussian_weight(dy, dx, radius) == gaussian_weight(dx, dy, radius),
{
    lemma_squared_offset(dx, dy);
    lemma_squared_offset(ex, ey);
    let r2 = radius.raw * radius.raw;
    let a = squared_offset(dx, dy);
    let b = squared_offset(ex, ey);
    if radius.raw != 0 {
        assert(a * 0x8000_0000_0000_0000_0000_0000 / r2 <= b * 0x8000_0000_0000_0000_0000_0000 / r2)
            by (nonlinear_arith)
            requires
                0 <= a <= b,
                r2 == radius.raw * radius.raw,
                radius.raw != 0,
        ;
    }
    lemma_weight_of_non_increasing(
        a,
        b,
        radius,
        gaussian_exponent(dx, dy, radius),
        gaussian_exponent(ex, ey, radius),
    );
}

/// For one radius, the exponential weight of a longer offset is not
/// greater; and the weight does not change when a component of the offset
/// changes its sign or the two change places.
pub proof fn lemma_expon_non_increasing(dx: int, dy: int, ex: int, ey: int, radius: Fixed)
    requires
        squared_offset(dx, dy) <= squared_offset(ex, ey),
    ensures
        expon_weight(ex, ey, radius).raw <= expon_weight(dx, dy, radius).raw,
        0 <= expon_weight(dx, dy, radius).raw <= SCALE,
        expon_weight(-dx, dy, radius) == expon_weight(dx, dy, radius),
        expon_weight(dx, -dy, radius) == expon_weight(dx, dy, radius),
        expon_weight(dy, dx, radius) == expon_weight(dx, dy, radius),
{
    lemma_squared_offset(dx, dy);
    lemma_squared_offset(ex, ey);
    let r2 = radius.raw * radius.raw;
    let a = squared_offset(dx, dy);
    let b = squared_offset(ex, ey);
    if radius.raw != 0 {
        let qa = a * 0x1_0000_0000_0000_0000_0000_0000_0000_0000 / r2;
        let qb = b * 0x1_0000_0000_0000_0000_0000_0000_0000_0000 / r2;
        assert(0 <= qa <= qb) by (nonlinear_arith)
            requires
                0 <= a <= b,
                r2 == radius.raw * radius.raw,
                radius.raw != 0,
                qa == a * 0x1_0000_0000_0000_0000_0000_0000_0000_0000 / r2,
                qb == b * 0x1_0000_0000_0000_0000_0000_0000_0000_0000 / r2,
        ;
        lemma_floor_sqrt_grows(qa, qb);
    }
    lemma_weight_of_non_increasing(
        a,
        b,
        radius,
        expon_exponent(dx, dy, radius),
        expon_exponent(ex, ey, radius),
    );
}

/// The sinc weight lies between minus one and one; and it does not change
/// when a component of the offset changes its sign or the two change
/// places.
pub proof fn lemma_sinc_bounded(dx: int, dy: int, radius: Fixed)
    ensures
        -SCALE <= sinc_weight(dx, dy, radius).raw <= SCALE,
        sinc_weight(-dx, dy, radius) == sinc_weight(dx, dy, radius),
        sinc_weight(dx, -dy, radius) == sinc_weight(dx, dy, radius),
        sinc_weight(dy, dx, radius) == sinc_weight(dx, dy, radius),
{
    lemma_squared_offset(dx, dy);
    let d = sinc_angle(dx, dy, radius);
    if d.raw != 0 {
        lemma_sine_bounded(d);
        let s = sine(d).raw as int;
        let n = s * SCALE;
        let q = quotient_toward_zero(n, d.raw as int);
        assert(-SCALE <= q <= SCALE) by (nonlinear_arith)
            requires
                d.raw != 0,
                -d.raw <= s <= d.raw || d.raw <= s <= -d.raw,
                n == s * SCALE,
                SCALE == 4294967296,
                q == quotient_toward_zero(n, d.raw as int),
        ;
    }
}

/// The weight zero, for an exponent of 32 or more over a radius other than
/// zero.
proof fn lemma_weight_vanishes(square: int, radius: Fixed, exponent: int)
    requires
        radius.raw != 0,
        exponent >= 0x20_0000_0000,
    ensures
        weight_of(square, radius, exponent) == Fixed::zero(),
{
}

/// The Gaussian kernel: `exp(-(dx² + dy²) / (2 · radius²))`. The weight
/// is between zero and one, and no nearer offset has a smaller weight for
/// the same radius.
pub fn gaussian(dx: isize, dy: isize, radius: Fixed) -> (w: Fixed)
    ensures
        w == gaussian_weight(dx as int, dy as int, radius),
        0 <= w.raw <= SCALE,
        forall|ex: int, ey: int|
            squared_offset(ex, ey) <= squared_offset(dx as int, dy as int) ==> w.raw <= (
            #[trigger] gaussian_weight(ex, ey, radius)).raw,
{
    proof {
        lemma_gaussian_non_increasing(dx as int, dy as int, dx as int, dy as int, radius);
        assert forall|ex: int, ey: int|
            squared_offset(ex, ey) <= squared_offset(dx as int, dy as int) implies gaussian_weight(
            dx as int,
            dy as int,
            radius,
        ).raw <= (#[trigger] gaussian_weight(ex, ey, radius)).raw by {
            lemma_gaussian_non_increasing(ex, ey, dx as int, dy as int, radius);
        }
        lemma_two_to();
    }
    let d2: u128 = squared_offset_of(dx, dy);
    let r2: u128 = squared_radius_of(radius);
    if r2 == 0 {
        return if d2 == 0 {
            Fixed { raw: SCALE }
        } else {
            Fixed { raw: 0 }
        };
    }
    if d2 >= 0x10_0000_0000_0000_0000u128 {
        proof {
            let e = gaussian_exponent(dx as int, dy as int, radius);
            assert(e >= 0x20_0000_0000) by (nonlinear_arith)
                requires
                    e == d2 * 0x8000_0000_0000_0000_0000_0000 / (r2 as int),
                    d2 >= 0x10_0000_0000_0000_0000,
                    0 < r2 <= 0x4000_0000_0000_0000_0000_0000_0000_0000,
            ;
            lemma_weight_vanishes(d2 as int, radius, e);
        }
        return Fixed { raw: 0 };
    }
    let n: u128 = d2 * 0x400_0000_0000_0000u128;
    if n >= r2 {
        proof {
            let e = gaussian_exponent(dx as int, dy as int, radius);
            assert(e >= 0x20_0000_0000) by (nonlinear_arith)
                requires
                    e == d2 * 0x8000_0000_0000_0000_0000_0000 / (r2 as int),
                    d2 * 0x400_0000_0000_0000 >= r2,
                    0 < r2,
            ;
            lemma_weight_vanishes(d2 as int, radius, e);
        }
        return Fixed { raw: 0 };
    }
    let q: u128 = scaled_quotient(n, r2, 37);
    proof {
        assert(n * 0x20_0000_0000 == d2 * 0x8000_0000_0000_0000_0000_0000) by (nonlinear_arith)
            requires
                n == d2 * 0x400_0000_0000_0000,
        ;
    }
    exp_neg_of(Fixed { raw: q as i64 })
}

/// The largest angle `2^31`, where the quotient under the root is `2^126`
/// or more.
proof fn lemma_angle_saturates(e: int)
    requires
        e >= 0x4000_0000_0000_0000_0000_0000_0000_0000,
    ensures
        saturate(floor_sqrt(e)) == i64::MAX,
{
    lemma_floor_sqrt_exists(e);
    let r = floor_sqrt(e);
    if r + 1 <= 0x8000_0000_0000_0000 {
        assert((r + 1) * (r + 1) <= 0x4000_0000_0000_0000_0000_0000_0000_0000) by (nonlinear_arith)
            requires
                0 <= r,
                r + 1 <= 0x8000_0000_0000_0000,
        ;
    }
}

/// The sinc kernel: one at the offset zero; else `sin(d) / d` for
/// `d = sqrt(dx² + dy²) / (radius · 2)`. The weight is between minus one
/// and one.
pub fn sinc_sq(dx: isize, dy: isize, radius: Fixed) -> (w: Fixed)
    ensures
        w == sinc_weight(dx as int, dy as int, radius),
        -SCALE <= w.raw <= SCALE,
{
    proof {
        lemma_sinc_bounded(dx as int, dy as int, radius);
        lemma_two_to();
    }
    let d2: u128 = squared_offset_of(dx, dy);
    if d2 == 0 {
        return Fixed { raw: SCALE };
    }
    let r2: u128 = squared_radius_of(radius);
    let d: Fixed = if r2 == 0 {
        Fixed { raw: i64::MAX }
    } else if d2 >= r2 {
        proof {
            let e = d2 * 0x4000_0000_0000_0000_0000_0000_0000_0000 / (r2 as int);
            assert(e >= 0x4000_0000_0000_0000_0000_0000_0000_0000) by (nonlinear_arith)
                requires
                    e == d2 * 0x4000_0000_0000_0000_0000_0000_0000_0000 / (r2 as int),
                    d2 >= r2,
                    0 < r2,
            ;
            lemma_angle_saturates(e);
        }
        Fixed { raw: i64::MAX }
    } else {
        let q: u128 = scaled_quotient(d2, r2, 126);
        let root: u128 = integer_sqrt(q);
        proof {
            lemma_floor_sqrt_is(q as int, root as int);
        }
        Fixed { raw: root as i64 }
    };
    if d.raw == 0 {
        return Fixed { raw: SCALE };
    }
    sine_of(d).sat_div(d)
}

/// The exponential kernel: `exp(-sqrt(dx² + dy²) / radius)`. The weight
/// is between zero and one, and no nearer offset has a smaller weight for
/// the same radius.
pub fn expon(dx: isize, dy: isize, radius: Fixed) -> (w: Fixed)
    ensures
        w == expon_weight(dx as int, dy as int, radius),
        0 <= w.raw <= SCALE,
        forall|ex: int, ey: int|
            squared_offset(ex, ey) <= squared_offset(dx as int, dy as int) ==> w.raw <= (
            #[trigger] expon_weight(ex, ey, radius)).raw,
{
    proof {
        lemma_expon_non_increasing(dx as int, dy as int, dx as int, dy as int, radius);
        assert forall|ex: int, ey: int|
            squared_offset(ex, ey) <= squared_offset(dx as int, dy as int) implies expon_weight(
            dx as int,
            dy as int,
            radius,
        ).raw <= (#[trigger] expon_weight(ex, ey, radius)).raw by {
            lemma_expon_non_increasing(ex, ey, dx as int, dy as int, radius);
        }
        lemma_two_to();
    }
    let d2: u128 = squared_offset_of(dx, dy);
    let r2: u128 = squared_radius_of(radius);
    if r2 == 0 {
        return if d2 == 0 {
            Fixed { raw: SCALE }
        } else {
            Fixed { raw: 0 }
        };
    }
    let ghost under: int = d2 * 0x1_0000_0000_0000_0000_0000_0000_0000_0000 / (r2 as int);
    if d2 >= 0x100_0000_0000_0000_0000u128 {
        proof {
            assert(under >= 0x400_0000_0000_0000_0000) by (nonlinear_arith)
                requires
                    under == d2 * 0x1_0000_0000_0000_0000_0000_0000_0000_0000 / (r2 as int),
                    d2 >= 0x100_0000_0000_0000_0000,
                    0 < r2 <= 0x4000_0000_0000_0000_0000_0000_0000_0000,
            ;
            lemma_floor_sqrt_grows(0x400_0000_0000_0000_0000, under);
            lemma_floor_sqrt_is(0x400_0000_0000_0000_0000, 0x20_0000_0000);
            lemma_weight_vanishes(d2 as int, radius, floor_sqrt(under));
        }
        return Fixed { raw: 0 };
    }
    let n: u128 = d2 * 0x40_0000_0000_0000u128;
    if n >= r2 {
        proof {
            assert(under >= 0x400_0000_0000_0000_0000) by (nonlinear_arith)
                requires
                    under == d2 * 0x1_0000_0000_0000_0000_0000_0000_0000_0000 / (r2 as int),
                    d2 * 0x40_0000_0000_0000 >= r2,
                    0 < r2,
            ;
            lemma_floor_sqrt_grows(0x400_0000_0000_0000_0000, under);
            lemma_floor_sqrt_is(0x400_0000_0000_0000_0000, 0x20_0000_0000);
            lemma_weight_vanishes(d2 as int, radius, floor_sqrt(under));
        }
        return Fixed { raw: 0 };
    }
    let q: u128 = scaled_quotient(n, r2, 74);
    proof {
        assert(n * 0x400_0000_0000_0000_0000 == d2 * 0x1_0000_0000_0000_0000_0000_0000_0000_0000)
            by (nonlinear_arith)
            requires
                n == d2 * 0x40_0000_0000_0000,
        ;
    }
    let root: u128 = integer_sqrt(q);
    proof {
        lemma_floor_sqrt_is(q as int, root as int);
        if root >= 0x20_0000_0000 {
            assert(root * root >= 0x400_0000_0000_0000_0000) by (nonlinear_arith)
                requires
                    root >= 0x20_0000_0000,
            ;
        }
    }
    exp_neg_of(Fixed { raw: root as i64 })
}

/// At the offset zero each of the three kernels is one, whatever the
/// radius.
pub proof fn lemma_kernels_one_at_origin(radius: Fixed)
    ensures
        gaussian_weight(0, 0, radius) == Fixed::one(),
        sinc_weight(0, 0, radius) == Fixed::one(),
        expon_weight(0, 0, radius) == Fixed::one(),
{
    assert(squared_offset(0, 0) == 0);
    let r2 = radius.raw * radius.raw;
    if radius.raw != 0 {
        assert(0int * 0x8000_0000_0000_0000_0000_0000 / r2 == 0) by (nonlinear_arith)
            requires
                r2 == radius.raw * radius.raw,
                radius.raw != 0,
        ;
        assert(0int * 0x1_0000_0000_0000_0000_0000_0000_0000_0000 / r2 == 0) by (nonlinear_arith)
            requires
                r2 == radius.raw * radius.raw,
                radius.raw != 0,
        ;
        lemma_floor_sqrt_is(0, 0);
    }
}

/// The kernel that gives every offset the same weight, so that all cells
/// follow a sample alike.
#[derive(Clone, Copy, Debug, PartialEq, Eq, Structural)]
pub struct Uniform {
    pub level: Fixed,
}

impl NeighbourhoodKernel for Uniform {
    open spec fn weight(&self, dx: int, dy: int, radius: Fixed) -> Fixed {
        self.level
    }

    fn scale(&self, dx: isize, dy: isize, radius: Fixed) -> (w: Fixed) {
        self.level
    }
}

/// The kernels that a training configuration can name.
#[derive(Clone, Copy, Debug, PartialEq, Eq, Structural)]
pub enum Neighbourhood {
    Gaussian,
    SincSq,
    Expon,
}

impl Neighbourhood {
    /// The kernel of the name `name`: `gaussian`, `sinc` (also written
    /// `sinc_sq`) or `expon`.
    pub open spec fn named(name: Seq<char>) -> Option<Neighbourhood> {
        if name == "gaussian"@ {
            Some(Neighbourhood::Gaussian)
        } else if name == "sinc"@ || name == "sinc_sq"@ {
            Some(Neighbourhood::SincSq)
        } else if name == "expon"@ {
            Some(Neighbourhood::Expon)
        } else {
            None
        }
    }

    /// The kernel of the name `name`, if it is one of `gaussian`, `sinc`
    /// (also written `sinc_sq`) and `expon`.
    pub fn from_name(name: &String) -> (r: Option<Neighbourhood>)
        ensures
            r == Neighbourhood::named(name@),
    {
        if *name == "gaussian".to_owned() {
            Some(Neighbourhood::Gaussian)
        } else if *name == "sinc".to_owned() || *name == "sinc_sq".to_owned() {
            Some(Neighbourhood::SincSq)
        } else if *name == "expon".to_owned() {
            Some(Neighbourhood::Expon)
        } else {
            None
        }
    }
}

impl NeighbourhoodKernel for Neighbourhood {
    open spec fn weight(&self, dx: int, dy: int, radius: Fixed) -> Fixed {
        match self {
            Neighbourhood::Gaussian => gaussian_weight(dx, dy, radius),
            Neighbourhood::SincSq => sinc_weight(dx, dy, radius),
            Neighbourhood::Expon => expon_weight(dx, dy, radius),
        }
    }

    fn scale(&self, dx: isize, dy: isize, radius: Fixed) -> (w: Fixed) {
        match self {
            Neighbourhood::Gaussian => gaussian(dx, dy, radius),
            Neighbourhood::SincSq => sinc_sq(dx, dy, radius),
            Neighbourhood::Expon => expon(dx, dy, radius),
        }
    }
}

} // verus!
