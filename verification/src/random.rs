//! Where the map's random numbers come from.

use vstd::prelude::*;
use rand::Rng;
use crate::fixed::Fixed;

verus! {

/// `r` is a choice among `values`: one of them, or nothing where there is
/// none.
pub open spec fn is_choice_from(values: Seq<Vec<Fixed>>, r: Option<&Vec<Fixed>>) -> bool {
    match r {
        None => values.len() == 0,
        Some(v) => exists|i: int| 0 <= i < values.len() && #[trigger] values[i] == *v,
    }
}

/// A source of random numbers and random choices.
pub trait RandomSource {
    /// Draws a number from `[low, high)`.
    fn uniform(&mut self, low: Fixed, high: Fixed) -> (r: Fixed)
        requires
            low.raw < high.raw,
        ensures
            low.raw <= r.raw < high.raw,
    ;

    /// Draws one of `values`; `None` where there is none to draw.
    fn pick<'a>(&mut self, values: &'a [Vec<Fixed>]) -> (r: Option<&'a Vec<Fixed>>)
        ensures
            is_choice_from(values@, r),
    ;
}

#[verifier::external_type_specification]
#[verifier::external_body]
pub struct ExXorShiftRng(rand::XorShiftRng);

/// `Rng::gen_range` of rand, for `i64`, on an `XorShiftRng`. The crate
/// documents a value of `[low, high)` and a panic for `low >= high`; for an
/// integer it takes `low` plus a remainder by `high - low`.
#[verifier::external_body]
fn gen_range(rng: &mut rand::XorShiftRng, low: i64, high: i64) -> (r: i64)
    requires
        low < high,
    ensures
        low <= r < high,
{
    rng.gen_range(low, high)
}

/// `Rng::choose` of rand, on an `XorShiftRng`. The crate returns `None` for
/// an empty slice, and else a reference to the element at an index that it
/// draws below the slice's length.
#[verifier::external_body]
fn choose_one<'a>(rng: &mut rand::XorShiftRng, values: &'a [Vec<Fixed>]) -> (r: Option<&'a Vec<Fixed>>)
    ensures
        is_choice_from(values@, r),
{
    rng.choose(values)
}

impl RandomSource for rand::XorShiftRng {
    fn uniform(&mut self, low: Fixed, high: Fixed) -> (r: Fixed) {
        Fixed { raw: gen_range(self, low.raw, high.raw) }
    }

    fn pick<'a>(&mut self, values: &'a [Vec<Fixed>]) -> (r: Option<&'a Vec<Fixed>>) {
        choose_one(self, values)
    }
}

} // verus!
