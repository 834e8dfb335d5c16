//! Linear interval remapping: the one piece of geometry every coordinate
//! transform in the crate goes through.

use vstd::prelude::*;

verus! {

use crate::fixed::COORD_BOUND;
use crate::fixed::abs_int;
use crate::fixed::div_i128;
use crate::fixed::div_trunc;
use crate::fixed::lemma_div_trunc_bounds;
use crate::fixed::lemma_div_trunc_multiple;

/// One coordinate axis, as an ordered pair of fixed-point endpoints.  The
/// endpoints may come in either order; a range used as the input of a
/// remapping must not be degenerate (`min != max`).
#[derive(Clone, Copy, Debug, PartialEq, Eq, Structural)]
pub struct Range {
    pub min: i64,
    pub max: i64,
}

/// A scalar small enough that sums of products of three such scalars stay
/// inside `i128`.
pub open spec fn in_coord_range(v: int) -> bool {
    -(COORD_BOUND as int) <= v <= COORD_BOUND as int
}

/// The numerator of the exact remapping quotient.
pub open spec fn scale_num(input: Range, value: int, output: Range) -> int {
    input.max * output.min - input.min * output.max + value * (output.max - output.min)
}

/// The remapped value: `value` carried linearly from `input`'s interval to
/// `output`'s, rounded toward zero.  Sends `input.min` to `output.min` and
/// `input.max` to `output.max` exactly.
pub open spec fn scale_exact(input: Range, value: int, output: Range) -> int {
    div_trunc(scale_num(input, value, output), input.max - input.min)
}

impl Range {
    pub fn new(min: i64, max: i64) -> (r: Range)
        ensures
            r.min == min,
            r.max == max,
    {
        Range { min, max }
    }

    /// Linearly remaps `value` from `input`'s interval to `output`'s.
    pub fn scale(input: &Range, value: i64, output: &Range) -> (r: i64)
        requires
            input.min != input.max,
            in_coord_range(input.min as int),
            in_coord_range(input.max as int),
            in_coord_range(output.min as int),
            in_coord_range(output.max as int),
            in_coord_range(value as int),
            i64::MIN <= scale_exact(*input, value as int, *output) <= i64::MAX,
        ensures
            r == scale_exact(*input, value as int, *output),
    {
        let b: i128 = COORD_BOUND as i128;
        proof {
            assert((input.max as int) * (output.min as int) <= b * b && (input.max as int) * (
            output.min as int) >= -(b * b)) by (nonlinear_arith)
                requires
                    -b <= input.max as int <= b,
                    -b <= output.min as int <= b,
            ;
            assert((input.min as int) * (output.max as int) <= b * b && (input.min as int) * (
            output.max as int) >= -(b * b)) by (nonlinear_arith)
                requires
                    -b <= input.min as int <= b,
                    -b <= output.max as int <= b,
            ;
            assert((value as int) * ((output.max as int) - (output.min as int)) <= 2 * (b * b) && (
            value as int) * ((output.max as int) - (output.min as int)) >= -(2 * (b * b)))
                by (nonlinear_arith)
                requires
                    -b <= value as int <= b,
                    -b <= output.min as int <= b,
                    -b <= output.max as int <= b,
            ;
        }
        let num: i128 = (input.max as i128) * (output.min as i128) - (input.min as i128) * (
        output.max as i128) + (value as i128) * ((output.max as i128) - (output.min as i128));
        let den: i128 = (input.max as i128) - (input.min as i128);
        let q: i128 = if den > 0 {
            div_i128(num, den)
        } else {
            div_i128(-num, -den)
        };
        proof {
            if den < 0 {
                assert(abs_int(-(num as int)) == abs_int(num as int));
                assert(div_trunc(-(num as int), -(den as int)) == div_trunc(
                    num as int,
                    den as int,
                ));
            }
        }
        q as i64
    }
}

/// The remapping is exact at the input interval's endpoints: `input.min`
/// lands on `output.min` and `input.max` on `output.max`, for every
/// non-degenerate input range.
pub proof fn lemma_scale_endpoints(input: Range, output: Range)
    requires
        input.min != input.max,
    ensures
        scale_exact(input, input.min as int, output) == output.min,
        scale_exact(input, input.max as int, output) == output.max,
{
    let d = input.max - input.min;
    let inm = input.min as int;
    let inx = input.max as int;
    let outm = output.min as int;
    let outx = output.max as int;
    assert(inx * outm - inm * outx + inm * (outx - outm) == outm * (inx - inm))
        by (nonlinear_arith);
    lemma_div_trunc_multiple(outm, d);
    assert(inx * outm - inm * outx + inx * (outx - outm) == outx * (inx - inm))
        by (nonlinear_arith);
    lemma_div_trunc_multiple(outx, d);
}

/// A value inside the input interval lands inside the output interval,
/// whichever way either interval is oriented.
pub proof fn lemma_scale_in_output(input: Range, value: int, output: Range)
    requires
        input.min < input.max,
        input.min <= value <= input.max,
    ensures
        output.min <= output.max ==> output.min <= scale_exact(input, value, output)
            <= output.max,
        output.max <= output.min ==> output.max <= scale_exact(input, value, output)
            <= output.min,
{
    let d = input.max - input.min;
    let num = scale_num(input, value, output);
    if output.min <= output.max {
        assert((output.min as int) * d <= num <= (output.max as int) * d) by (nonlinear_arith)
            requires
                d == input.max - input.min,
                d > 0,
                input.min <= value <= input.max,
                output.min <= output.max,
                num == scale_num(input, value, output),
        ;
        lemma_div_trunc_bounds(num, d, output.min as int, output.max as int);
    } else {
        assert((output.max as int) * d <= num <= (output.min as int) * d) by (nonlinear_arith)
            requires
                d == input.max - input.min,
                d > 0,
                input.min <= value <= input.max,
                output.max <= output.min,
                num == scale_num(input, value, output),
        ;
        lemma_div_trunc_bounds(num, d, output.max as int, output.min as int);
    }
}

} // verus!
