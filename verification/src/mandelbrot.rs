//! The escape-time kernel and the render state that drives it.
//!
//! A sample point is a fixed-point complex number; the kernel iterates
//! `z <- z*z + c` with truncating fixed-point products, short-circuits
//! points caught by the closed-form cardioid and period-2-bulb tests, and
//! detects exactly periodic orbits.  `escape_from` is the mathematical
//! model of the loop, and the executable kernel is proved equal to it.

use vstd::prelude::*;

verus! {

use crate::color::Color;
use crate::color::HSV;
use crate::color::lerp_color;
use crate::color::to_rgb_spec;
use crate::fixed::SCALE;
use crate::fixed::cbrt_floor;
use crate::fixed::icbrt;
use crate::fixed::isqrt;
use crate::fixed::lemma_div_trunc_bounds;
use crate::fixed::log2_fixed;
use crate::fixed::log2_fixed_spec;
use crate::fixed::pow_fixed;
use crate::fixed::pow_fixed_exec;
use crate::fixed::sqrt_floor;
use crate::fixed::abs_int;
use crate::fixed::div_i128;
use crate::fixed::div_trunc;
use crate::range::Range;
use crate::range::lemma_scale_in_output;
use crate::range::scale_exact;
use crate::rectangle::Rectangle;
use crate::vector::Vector;
use vstd::string::StringExecFns;

/// A complex sample point, both parts fixed-point scalars.
#[derive(Clone, Copy, Debug, PartialEq, Eq, Structural)]
pub struct Complex {
    pub re: i64,
    pub im: i64,
}

/// The kernel's verdict on one sample point: inside the set (or
/// indistinguishable from inside), or escaped after some iterations with
/// the orbit's final value.
#[derive(Clone, Copy, Debug, PartialEq, Eq, Structural)]
pub enum EscapeResult {
    Bounded,
    Escaped { iterations: usize, z: Complex },
}

/// Largest magnitude allowed for a sample point's parts: 2^21 plane units.
pub const SAMPLE_BOUND: i64 = 0x20_0000_0000_0000;

/// Magnitude bound the orbit's parts keep throughout the loop.
pub const ORBIT_BOUND: i64 = 0x40_0000_0000_0000;

/// Largest allowed bailout threshold: 2^16 plane units of squared
/// magnitude.  Larger documented thresholds (squared-magnitude 2^32)
/// exceed the 32-bit fractional budget and are out of this
/// representation's range.
pub const BAILOUT_BOUND: i64 = 0x1_0000_0000_0000;

/// Squared magnitude, in units of 1/SCALE^2.
pub open spec fn nsq(re: int, im: int) -> int {
    re * re + im * im
}

/// Real part of one fixed-point step `z*z + c`.
pub open spec fn step_re(z: Complex, c: Complex) -> int {
    div_trunc(z.re * z.re - z.im * z.im, SCALE as int) + c.re
}

/// Imaginary part of one fixed-point step `z*z + c`.
pub open spec fn step_im(z: Complex, c: Complex) -> int {
    div_trunc(2 * z.re * z.im, SCALE as int) + c.im
}

/// The orbit of `c` continued from an intermediate loop state, as the
/// executable kernel computes it: `old` is the last periodicity snapshot,
/// `period` the count since that snapshot.  Truncating casts make the
/// model total; the kernel only ever reaches in-range states.
pub open spec fn escape_from(
    z: Complex,
    old: Complex,
    period: usize,
    iterations: usize,
    c: Complex,
    bailout: i64,
    max_iterations: usize,
    period_length: usize,
) -> EscapeResult
    decreases max_iterations - iterations,
{
    if nsq(z.re as int, z.im as int) < (bailout as int) * (SCALE as int) && iterations
        < max_iterations {
        let z2 = Complex { re: step_re(z, c) as i64, im: step_im(z, c) as i64 };
        if z2 == old {
            EscapeResult::Bounded
        } else {
            let snapshot = period + 1 > period_length;
            escape_from(
                z2,
                if snapshot {
                    z2
                } else {
                    old
                },
                if snapshot {
                    0
                } else {
                    (period + 1) as usize
                },
                (iterations + 1) as usize,
                c,
                bailout,
                max_iterations,
                period_length,
            )
        }
    } else if iterations < max_iterations {
        EscapeResult::Escaped { iterations, z }
    } else {
        EscapeResult::Bounded
    }
}

/// The closed-form main-cardioid membership test, taken at 16 fractional
/// bits: true only for points inside the set's main component.
pub open spec fn in_main_cardioid(c: Complex) -> bool {
    if abs_int(c.re as int) > 4 * (SCALE as int) || abs_int(c.im as int) > 4 * (SCALE as int) {
        false
    } else {
        let xs = div_trunc(c.re as int, 0x1_0000);
        let ys = div_trunc(c.im as int, 0x1_0000);
        let q = (xs - 0x4000) * (xs - 0x4000) + ys * ys;
        q * (q + (xs - 0x4000) * 0x1_0000) < ys * ys * 0x4000_0000
    }
}

/// The closed-form period-2-bulb membership test, taken at 16 fractional
/// bits.
pub open spec fn in_period2_bulb(c: Complex) -> bool {
    if abs_int(c.re as int) > 4 * (SCALE as int) || abs_int(c.im as int) > 4 * (SCALE as int) {
        false
    } else {
        let xs = div_trunc(c.re as int, 0x1_0000);
        let ys = div_trunc(c.im as int, 0x1_0000);
        (xs + 0x1_0000) * (xs + 0x1_0000) + ys * ys < 0x1000_0000
    }
}

/// What the kernel returns for a sample point: the short-circuit verdict
/// for points the closed-form tests catch, the iterated orbit otherwise.
pub open spec fn kernel_spec(
    c: Complex,
    bailout: i64,
    max_iterations: usize,
    period_length: usize,
) -> EscapeResult {
    if in_main_cardioid(c) || in_period2_bulb(c) {
        EscapeResult::Bounded
    } else {
        escape_from(
            Complex { re: 0, im: 0 },
            Complex { re: 0, im: 0 },
            0,
            0,
            c,
            bailout,
            max_iterations,
            period_length,
        )
    }
}

/// Parameter ranges under which the kernel neither overflows nor panics.
pub open spec fn kernel_params_ok(
    c: Complex,
    bailout: i64,
    max_iterations: usize,
    period_length: usize,
) -> bool {
    &&& -SAMPLE_BOUND <= c.re <= SAMPLE_BOUND
    &&& -SAMPLE_BOUND <= c.im <= SAMPLE_BOUND
    &&& 0 < bailout <= BAILOUT_BOUND
    &&& max_iterations >= 1
    &&& period_length < 0x1000_0000
}

/// An escaped result's final orbit value stays within the loop's
/// magnitude bound.
pub open spec fn escaped_in_orbit(r: EscapeResult) -> bool {
    match r {
        EscapeResult::Bounded => true,
        EscapeResult::Escaped { iterations, z } => -ORBIT_BOUND <= z.re <= ORBIT_BOUND
            && -ORBIT_BOUND <= z.im <= ORBIT_BOUND,
    }
}

/// Executable form of the two closed-form membership tests together.
fn short_circuit(c: &Complex) -> (r: bool)
    requires
        -SAMPLE_BOUND <= c.re <= SAMPLE_BOUND,
        -SAMPLE_BOUND <= c.im <= SAMPLE_BOUND,
    ensures
        r == (in_main_cardioid(*c) || in_period2_bulb(*c)),
{
    let four: i64 = 4 * SCALE;
    if (c.re > four || c.re < -four) || (c.im > four || c.im < -four) {
        return false;
    }
    let xs: i128 = div_i128(c.re as i128, 0x1_0000);
    let ys: i128 = div_i128(c.im as i128, 0x1_0000);
    proof {
        crate::fixed::lemma_div_trunc_bounds(c.re as int, 0x1_0000, -0x4_0000, 0x4_0000);
        crate::fixed::lemma_div_trunc_bounds(c.im as int, 0x1_0000, -0x4_0000, 0x4_0000);
        assert(-0x4_0000 <= xs <= 0x4_0000);
        assert(-0x4_0000 <= ys <= 0x4_0000);
        assert(0 <= (xs as int - 0x4000) * (xs as int - 0x4000) <= 0x20_0000_0000)
            by (nonlinear_arith)
            requires
                -0x4_0000 <= xs as int <= 0x4_0000,
        ;
        assert(0 <= (ys as int) * (ys as int) <= 0x10_0000_0000) by (nonlinear_arith)
            requires
                -0x4_0000 <= ys as int <= 0x4_0000,
        ;
        assert(-0x5_0000_0000 <= (xs as int - 0x4000) * 0x1_0000 <= 0x5_0000_0000)
            by (nonlinear_arith)
            requires
                -0x4_0000 <= xs as int <= 0x4_0000,
        ;
        assert(0 <= (xs as int + 0x1_0000) * (xs as int + 0x1_0000) <= 0x20_0000_0000)
            by (nonlinear_arith)
            requires
                -0x4_0000 <= xs as int <= 0x4_0000,
        ;
    }
    let q: i128 = (xs - 0x4000) * (xs - 0x4000) + ys * ys;
    proof {
        assert(q * (q + (xs as int - 0x4000) * 0x1_0000) <= 0x1000_0000_0000_0000_0000_0000
            && q * (q + (xs as int - 0x4000) * 0x1_0000) >= -0x1000_0000_0000_0000_0000_0000)
            by (nonlinear_arith)
            requires
                0 <= q <= 0x30_0000_0000,
                -0x5_0000_0000 <= (xs as int - 0x4000) * 0x1_0000 <= 0x5_0000_0000,
        ;
        assert(0 <= (ys as int) * (ys as int) * 0x4000_0000 <= 0x1000_0000_0000_0000_0000)
            by (nonlinear_arith)
            requires
                0 <= (ys as int) * (ys as int) <= 0x10_0000_0000,
        ;
    }
    if q * (q + (xs - 0x4000) * 0x1_0000) < ys * ys * 0x4000_0000 {
        return true;
    }
    (xs + 0x1_0000) * (xs + 0x1_0000) + ys * ys < 0x1000_0000
}

/// The escape-time kernel: iterates the quadratic recurrence on `c` after
/// trying the closed-form short-circuits, and returns exactly what the
/// mathematical model `kernel_spec` says.
pub fn kernel_escape(
    c: &Complex,
    bailout: i64,
    max_iterations: usize,
    period_length: usize,
) -> (r: EscapeResult)
    requires
        kernel_params_ok(*c, bailout, max_iterations, period_length),
    ensures
        r == kernel_spec(*c, bailout, max_iterations, period_length),
        in_main_cardioid(*c) || in_period2_bulb(*c) ==> r == EscapeResult::Bounded,
        escaped_in_orbit(r),
{
    if short_circuit(c) {
        return EscapeResult::Bounded;
    }
    let mut z = Complex { re: 0, im: 0 };
    let mut old = Complex { re: 0, im: 0 };
    let mut period: usize = 0;
    let mut iterations: usize = 0;
    loop
        invariant
            kernel_params_ok(*c, bailout, max_iterations, period_length),
            !(in_main_cardioid(*c) || in_period2_bulb(*c)),
            -ORBIT_BOUND <= z.re <= ORBIT_BOUND,
            -ORBIT_BOUND <= z.im <= ORBIT_BOUND,
            iterations <= max_iterations,
            period <= period_length,
            escape_from(z, old, period, iterations, *c, bailout, max_iterations, period_length)
                == escape_from(
                Complex { re: 0, im: 0 },
                Complex { re: 0, im: 0 },
                0,
                0,
                *c,
                bailout,
                max_iterations,
                period_length,
            ),
        decreases max_iterations - iterations,
    {
        let zre: i128 = z.re as i128;
        let zim: i128 = z.im as i128;
        proof {
            assert(zre * zre <= (ORBIT_BOUND as int) * (ORBIT_BOUND as int) && zre * zre >= 0)
                by (nonlinear_arith)
                requires
                    -ORBIT_BOUND <= zre <= ORBIT_BOUND,
            ;
            assert(zim * zim <= (ORBIT_BOUND as int) * (ORBIT_BOUND as int) && zim * zim >= 0)
                by (nonlinear_arith)
                requires
                    -ORBIT_BOUND <= zim <= ORBIT_BOUND,
            ;
        }
        let n: i128 = zre * zre + zim * zim;
        if !(n < (bailout as i128) * (SCALE as i128) && iterations < max_iterations) {
            if iterations < max_iterations {
                proof {
                    assert(escape_from(
                        z,
                        old,
                        period,
                        iterations,
                        *c,
                        bailout,
                        max_iterations,
                        period_length,
                    ) == EscapeResult::Escaped { iterations, z });
                }
                return EscapeResult::Escaped { iterations, z };
            }
            proof {
                assert(escape_from(
                    z,
                    old,
                    period,
                    iterations,
                    *c,
                    bailout,
                    max_iterations,
                    period_length,
                ) == EscapeResult::Bounded);
            }
            return EscapeResult::Bounded;
        }
        // Inside the loop the squared magnitude is under the bailout, so
        // each part is well under 2^40 and one more step stays in range.
        proof {
            assert(n < 0x1_0000_0000_0000_0000_0000) by (nonlinear_arith)
                requires
                    (n as int) < (bailout as int) * (SCALE as int),
                    0 < (bailout as int) && (bailout as int) <= 0x1_0000_0000_0000,
                    SCALE == 0x1_0000_0000,
            ;
            assert(-0x100_0000_0000 <= zre as int <= 0x100_0000_0000) by (nonlinear_arith)
                requires
                    (zre as int) * (zre as int) + (zim as int) * (zim as int)
                        < 0x1_0000_0000_0000_0000_0000,
            ;
            assert(-0x100_0000_0000 <= zim as int <= 0x100_0000_0000) by (nonlinear_arith)
                requires
                    (zre as int) * (zre as int) + (zim as int) * (zim as int)
                        < 0x1_0000_0000_0000_0000_0000,
            ;
            assert(-0x2_0000_0000_0000_0000_0000 <= (zre as int) * (zre as int) - (zim as int) * (
            zim as int) <= 0x2_0000_0000_0000_0000_0000) by (nonlinear_arith)
                requires
                    -0x100_0000_0000 <= zre as int <= 0x100_0000_0000,
                    -0x100_0000_0000 <= zim as int <= 0x100_0000_0000,
            ;
            assert(-0x2_0000_0000_0000_0000_0000 <= 2 * (zre as int) * (zim as int)
                <= 0x2_0000_0000_0000_0000_0000) by (nonlinear_arith)
                requires
                    -0x100_0000_0000 <= zre as int <= 0x100_0000_0000,
                    -0x100_0000_0000 <= zim as int <= 0x100_0000_0000,
            ;
            assert((-0x2_0000_0000_0000) * (SCALE as int) == -0x2_0000_0000_0000_0000_0000)
                by (nonlinear_arith);
            assert(0x2_0000_0000_0000 * (SCALE as int) == 0x2_0000_0000_0000_0000_0000)
                by (nonlinear_arith);
            crate::fixed::lemma_div_trunc_bounds(
                (zre as int) * (zre as int) - (zim as int) * (zim as int),
                SCALE as int,
                -0x2_0000_0000_0000,
                0x2_0000_0000_0000,
            );
            crate::fixed::lemma_div_trunc_bounds(
                2 * (zre as int) * (zim as int),
                SCALE as int,
                -0x2_0000_0000_0000,
                0x2_0000_0000_0000,
            );
        }
        let re2: i128 = div_i128(zre * zre - zim * zim, SCALE as i128) + (c.re as i128);
        let im2: i128 = div_i128(2 * zre * zim, SCALE as i128) + (c.im as i128);
        let z2 = Complex { re: re2 as i64, im: im2 as i64 };
        proof {
            assert(z2.re as int == step_re(z, *c));
            assert(z2.im as int == step_im(z, *c));
        }
        if z2.re == old.re && z2.im == old.im {
            proof {
                assert(z2 == old);
                assert(escape_from(
                    z,
                    old,
                    period,
                    iterations,
                    *c,
                    bailout,
                    max_iterations,
                    period_length,
                ) == EscapeResult::Bounded);
            }
            return EscapeResult::Bounded;
        }
        let ghost z0 = z;
        let ghost old0 = old;
        let ghost p0 = period;
        let ghost i0 = iterations;
        z = z2;
        iterations = iterations + 1;
        period = period + 1;
        if period > period_length {
            period = 0;
            old = z;
        }
        proof {
            assert(escape_from(
                z,
                old,
                period,
                iterations,
                *c,
                bailout,
                max_iterations,
                period_length,
            ) == escape_from(z0, old0, p0, i0, *c, bailout, max_iterations, period_length));
        }
    }
}

/// How a frame is produced: full per-pixel evaluation with smooth
/// coloring, or the boundary-scanning approximation.
#[derive(Clone, Copy, Debug, PartialEq, Eq, Structural)]
pub enum Rendering {
    Smooth,
    Fast,
}

/// How an escape value turns into a color: through the control-color
/// palette, or through the procedural hue mapping.
#[derive(Clone, Copy, Debug, PartialEq, Eq, Structural)]
pub enum Coloring {
    Palette,
    LCH,
}

/// A named, ordered list of control colors.
#[derive(Clone, Debug)]
pub struct Palette {
    pub name: String,
    pub colors: Vec<Color>,
}

impl Palette {
    /// Builds a named palette from an ordered list of `#RRGGBB` texts;
    /// any malformed text yields `None`.
    pub fn from_hex_colors(name: &str, texts: &Vec<String>) -> (r: Option<Palette>)
        ensures
            r is Some <==> (forall|i: int|
                0 <= i < texts.len() ==> crate::color::is_hex_color(#[trigger] texts@[i]@)),
            r matches Some(p) ==> p.name@ == name@ && p.colors@.len() == texts.len() && forall|
                i: int,
            |
                0 <= i < texts.len() ==> p.colors@[i] == crate::color::hex_color(
                    #[trigger] texts@[i]@,
                ),
    {
        let mut colors: Vec<Color> = Vec::new();
        let mut i: usize = 0;
        while i < texts.len()
            invariant
                i <= texts.len(),
                colors@.len() == i,
                forall|j: int|
                    0 <= j < i ==> crate::color::is_hex_color(#[trigger] texts@[j]@),
                forall|j: int|
                    0 <= j < i ==> colors@[j] == crate::color::hex_color(#[trigger] texts@[j]@),
            decreases texts.len() - i,
        {
            match Color::from_hex(texts[i].as_str()) {
                Some(c) => colors.push(c),
                None => {
                    return None;
                },
            }
            i = i + 1;
        }
        Some(Palette { name: String::from_str(name), colors })
    }
}

/// Bound on a zoom half-extent.
pub const ZOOM_BOUND: i64 = 0x8_0000_0000_0000;

/// Joint bound on a center coordinate plus the zoom extent, so that every
/// sample point stays within `SAMPLE_BOUND`.
pub const POSITION_BOUND: i64 = 0x10_0000_0000_0000;

/// The logical render state: resolution, plane-space center and per-axis
/// zoom half-extent, kernel tuning, and the coloring setup.  The renderer
/// reads it; only the zoom transform and explicit field edits change it.
/// The coloring exponent is a whole number here (a fixed-point power is
/// an iterated product; a fractional exponent would need the
/// exponential function, which the fixed-point model does not carry).
#[derive(Clone, Debug)]
pub struct Mandelbrot {
    pub resolutions: Vec<(usize, usize)>,
    pub selected_resolution: usize,
    pub position: Vector,
    pub zoom: Vector,
    pub rendering: Rendering,
    pub bailout: i64,
    pub max_iterations: usize,
    pub chunk_size: usize,
    pub period_length: usize,
    pub coloring: Coloring,
    pub exponent: u32,
    pub palettes: Vec<Palette>,
    pub selected_palette: usize,
}

pub open spec fn rect_from_position_spec(position: Vector, zoom: Vector) -> Rectangle {
    Rectangle {
        start: Vector { x: (position.x - zoom.x) as i64, y: (position.y - zoom.y) as i64 },
        end: Vector { x: (position.x + zoom.x) as i64, y: (position.y + zoom.y) as i64 },
    }
}

/// The plane-space rectangle a viewport shows: `position ± zoom`.
pub fn rect_from_position(position: &Vector, zoom: &Vector) -> (r: Rectangle)
    requires
        abs_int(position.x as int) + abs_int(zoom.x as int) <= POSITION_BOUND,
        abs_int(position.y as int) + abs_int(zoom.y as int) <= POSITION_BOUND,
    ensures
        r == rect_from_position_spec(*position, *zoom),
{
    Rectangle {
        start: Vector { x: position.x - zoom.x, y: position.y - zoom.y },
        end: Vector { x: position.x + zoom.x, y: position.y + zoom.y },
    }
}

impl Mandelbrot {
    /// The shape every operation preserves: a selected resolution of sane
    /// size, strictly positive zoom extents, in-range kernel tuning, and
    /// a selected palette of at least two control colors.
    pub open spec fn wf(&self) -> bool {
        &&& self.resolutions.len() >= 1
        &&& self.selected_resolution < self.resolutions.len()
        &&& forall|i: int|
            0 <= i < self.resolutions.len() ==> 2 <= (#[trigger] self.resolutions[i]).0 <= 4096
                && 2 <= self.resolutions[i].1 <= 4096
        &&& 0 < self.zoom.x <= ZOOM_BOUND
        &&& 0 < self.zoom.y <= ZOOM_BOUND
        &&& abs_int(self.position.x as int) + self.zoom.x <= POSITION_BOUND
        &&& abs_int(self.position.y as int) + self.zoom.y <= POSITION_BOUND
        &&& 0 < self.bailout <= BAILOUT_BOUND
        &&& 1 <= self.max_iterations < 0x1000_0000
        &&& 1 <= self.chunk_size
        &&& self.period_length < 0x1000_0000
        &&& self.selected_palette < self.palettes.len()
        &&& forall|i: int|
            0 <= i < self.palettes.len() ==> 2 <= (#[trigger] self.palettes[i]).colors.len() <= 64
        &&& 1 <= self.exponent <= 8
    }

    pub open spec fn spec_width(&self) -> int {
        self.resolutions[self.selected_resolution as int].0 as int
    }

    pub open spec fn spec_height(&self) -> int {
        self.resolutions[self.selected_resolution as int].1 as int
    }

    pub open spec fn width_range(&self) -> Range {
        Range { min: 0, max: (self.spec_width() * SCALE) as i64 }
    }

    pub open spec fn height_range(&self) -> Range {
        Range { min: 0, max: (self.spec_height() * SCALE) as i64 }
    }

    pub open spec fn real_range(&self) -> Range {
        Range {
            min: (self.position.x - self.zoom.x) as i64,
            max: (self.position.x + self.zoom.x) as i64,
        }
    }

    pub open spec fn imaginary_range(&self) -> Range {
        Range {
            min: (self.position.y - self.zoom.y) as i64,
            max: (self.position.y + self.zoom.y) as i64,
        }
    }

    /// The plane-space sample under pixel `(x, y)`.
    pub open spec fn sample_at(&self, x: int, y: int) -> Complex {
        Complex {
            re: scale_exact(self.width_range(), x * SCALE, self.real_range()) as i64,
            im: scale_exact(self.height_range(), y * SCALE, self.imaginary_range()) as i64,
        }
    }

    pub fn width(&self) -> (r: usize)
        requires
            self.wf(),
        ensures
            r == self.spec_width(),
            2 <= r <= 4096,
    {
        self.resolutions[self.selected_resolution].0
    }

    pub fn height(&self) -> (r: usize)
        requires
            self.wf(),
        ensures
            r == self.spec_height(),
            2 <= r <= 4096,
    {
        self.resolutions[self.selected_resolution].1
    }

    pub fn resolutions(&self) -> (r: &Vec<(usize, usize)>)
        ensures
            r == &self.resolutions,
    {
        &self.resolutions
    }

    pub fn palettes(&self) -> (r: &Vec<Palette>)
        ensures
            r == &self.palettes,
    {
        &self.palettes
    }

    /// The four mapping axes: screen width and height, plane real and
    /// imaginary, derived from `position ± zoom`.
    pub fn ranges(&self) -> (r: (Range, Range, Range, Range))
        requires
            self.wf(),
        ensures
            r.0 == self.width_range(),
            r.1 == self.height_range(),
            r.2 == self.real_range(),
            r.3 == self.imaginary_range(),
    {
        let width_range = Range::new(0, (self.width() as i64) * SCALE);
        let height_range = Range::new(0, (self.height() as i64) * SCALE);
        let rect = rect_from_position(&self.position, &self.zoom);
        let real_range = Range::new(rect.start.x, rect.end.x);
        let imaginary_range = Range::new(rect.start.y, rect.end.y);
        (width_range, height_range, real_range, imaginary_range)
    }

    /// The escape-time kernel on one sample point, with this state's
    /// tuning.  Points the closed-form cardioid or period-2-bulb test
    /// catches come back `Bounded` without any iteration.
    pub fn iterate(&self, c: &Complex) -> (r: EscapeResult)
        requires
            self.wf(),
            -SAMPLE_BOUND <= c.re <= SAMPLE_BOUND,
            -SAMPLE_BOUND <= c.im <= SAMPLE_BOUND,
        ensures
            r == kernel_spec(*c, self.bailout, self.max_iterations, self.period_length),
            in_main_cardioid(*c) || in_period2_bulb(*c) ==> r == EscapeResult::Bounded,
            escaped_in_orbit(r),
    {
        kernel_escape(c, self.bailout, self.max_iterations, self.period_length)
    }

    /// The executable sample mapping for pixel `(x, y)`.
    pub fn sample(&self, x: usize, y: usize) -> (r: Complex)
        requires
            self.wf(),
            x <= self.spec_width(),
            y <= self.spec_height(),
        ensures
            r == self.sample_at(x as int, y as int),
            -SAMPLE_BOUND <= r.re <= SAMPLE_BOUND,
            -SAMPLE_BOUND <= r.im <= SAMPLE_BOUND,
    {
        let (width_range, height_range, real_range, imaginary_range) = self.ranges();
        proof {
            lemma_scale_in_output(
                self.width_range(),
                x as int * SCALE,
                self.real_range(),
            );
            lemma_scale_in_output(
                self.height_range(),
                y as int * SCALE,
                self.imaginary_range(),
            );
            assert(x as int * SCALE <= self.spec_width() * SCALE) by (nonlinear_arith)
                requires
                    x as int <= self.spec_width(),
                    SCALE > 0,
            ;
            assert(x as int * SCALE >= 0) by (nonlinear_arith)
                requires
                    x as int >= 0,
                    SCALE > 0,
            ;
            assert(y as int * SCALE <= self.spec_height() * SCALE) by (nonlinear_arith)
                requires
                    y as int <= self.spec_height(),
                    SCALE > 0,
            ;
            assert(y as int * SCALE >= 0) by (nonlinear_arith)
                requires
                    y as int >= 0,
                    SCALE > 0,
            ;
        }
        Complex {
            re: Range::scale(&width_range, (x as i64) * SCALE, &real_range),
            im: Range::scale(&height_range, (y as i64) * SCALE, &imaginary_range),
        }
    }

    /// The silent-mode escape value of pixel `(x, y)`: the iteration
    /// count, with `max_iterations` standing for `Bounded`.
    pub open spec fn spec_count_at(&self, x: int, y: int) -> usize {
        match kernel_spec(
            self.sample_at(x, y),
            self.bailout,
            self.max_iterations,
            self.period_length,
        ) {
            EscapeResult::Bounded => self.max_iterations,
            EscapeResult::Escaped { iterations, z } => iterations,
        }
    }

    /// Evaluates the kernel at pixel `(x, y)` in silent mode.
    pub fn count_at(&self, x: usize, y: usize) -> (r: usize)
        requires
            self.wf(),
            x <= self.spec_width(),
            y <= self.spec_height(),
        ensures
            r == self.spec_count_at(x as int, y as int),
    {
        let c = self.sample(x, y);
        match self.iterate(&c) {
            EscapeResult::Bounded => self.max_iterations,
            EscapeResult::Escaped { iterations, z } => iterations,
        }
    }
}

/// The palette strategy: the shaped progress value is pre-warped by a
/// cube root, then looked up by linear interpolation between the control
/// colors.
pub open spec fn palette_color(colors: Seq<Color>, s: int) -> Color {
    let sc = SCALE as int;
    let w3 = cbrt_floor(s * sc * sc);
    let pos = w3 * (colors.len() - 1);
    let seg = div_trunc(pos, sc);
    let frac = pos - seg * sc;
    if seg >= colors.len() - 1 {
        colors[colors.len() - 1]
    } else {
        lerp_color(colors[seg], colors[seg + 1], frac)
    }
}

/// The procedural strategy: lightness, chroma and hue are derived from
/// the shaped progress value (whose 3/2-power shaping is already
/// applied), the sine through a fixed-point rational approximation, and
/// the triple is mapped to RGB through the hue-sector conversion.
pub open spec fn lch_color(s: int) -> Color {
    let sc = SCALE as int;
    let a = div_trunc(s * (sc - s), sc);
    let sinv = div_trunc(16 * a * sc, 5 * sc - 4 * a);
    let v = div_trunc(sinv * sinv, sc);
    let value = sc - v;
    let cf = 28 * sc + 75 * (sc - v);
    let sat = div_trunc(cf, 103);
    let u = 360 * s;
    let h = u - div_trunc(u, 360 * sc) * (360 * sc);
    to_rgb_spec(HSV { hue: h as i64, saturation: sat as i64, value: value as i64 })
}

impl Mandelbrot {
    /// The shaping curve applied to a normalized progress value: raise
    /// to the coloring exponent, then to the power 3/2.
    pub open spec fn spec_shape(&self, t: int) -> int {
        let sc = SCALE as int;
        let u = pow_fixed(t, self.exponent as nat);
        div_trunc(u * sqrt_floor(u * sc), sc)
    }

    /// The shaped progress value of an escape count below the iteration
    /// budget: the count normalized to `[0, 1]`, then shaped.
    pub open spec fn spec_progress(&self, count: usize) -> int {
        self.spec_shape(div_trunc(count * SCALE, self.max_iterations as int))
    }

    /// The renormalized (fractional) escape value in fixed point:
    /// `iterations + 1 - log2(log2(|z|^2) / 2)`, the standard smooth
    /// count written with base-2 logarithms, clamped below at zero.
    /// Degenerate orbits (squared magnitude under one fixed-point unit)
    /// fall back to the raw count.
    pub open spec fn spec_smooth(&self, z: Complex, iterations: usize) -> int {
        let sc = SCALE as int;
        let n = nsq(z.re as int, z.im as int);
        if n < 1 {
            iterations * sc
        } else {
            let zn = div_trunc(log2_fixed_spec(n) - 64 * sc, 2);
            if zn < 1 {
                iterations * sc
            } else {
                let nu = log2_fixed_spec(zn) - 32 * sc;
                let sr = (iterations + 1) * sc - nu;
                if sr < 0 {
                    0
                } else {
                    sr
                }
            }
        }
    }

    /// The shaped progress of a raw fixed-point escape value: normalized
    /// by the budget, clamped into `[0, 1]`, then shaped.
    pub open spec fn spec_smooth_progress(&self, z: Complex, iterations: usize) -> int {
        let t0 = div_trunc(self.spec_smooth(z, iterations), self.max_iterations as int);
        let t = if t0 > SCALE {
            SCALE as int
        } else {
            t0
        };
        self.spec_shape(t)
    }

    /// Executable shaping curve, pinned to `spec_shape`.
    fn shape(&self, t: i64) -> (r: i64)
        requires
            self.wf(),
            0 <= t <= SCALE,
        ensures
            r == self.spec_shape(t as int),
            0 <= r <= SCALE,
    {
        let sc: i64 = SCALE;
        let u = pow_fixed_exec(t, self.exponent);
        proof {
            assert((u as int) * (sc as int) <= (sc as int) * (sc as int) && 0 <= (u as int) * (
            sc as int)) by (nonlinear_arith)
                requires
                    0 <= u as int <= sc as int,
            ;
        }
        let sq = isqrt((u as i128) * (sc as i128));
        proof {
            assert(sq as int <= sc as int) by (nonlinear_arith)
                requires
                    (sq as int) * (sq as int) <= (sc as int) * (sc as int),
                    sq as int >= 0,
                    sc as int > 0,
            ;
            assert(0 * (sc as int) <= (u as int) * (sq as int) <= (sc as int) * (sc as int))
                by (nonlinear_arith)
                requires
                    0 <= u as int <= sc as int,
                    0 <= sq as int <= sc as int,
            ;
            lemma_div_trunc_bounds((u as int) * (sq as int), sc as int, 0, sc as int);
        }
        div_i128((u as i128) * (sq as i128), sc as i128) as i64
    }

    /// Executable shaped progress of a count, pinned to `spec_progress`.
    fn progress(&self, count: usize) -> (r: i64)
        requires
            self.wf(),
            count < self.max_iterations,
        ensures
            r == self.spec_progress(count),
            0 <= r <= SCALE,
    {
        let sc: i64 = SCALE;
        proof {
            assert(0 * (self.max_iterations as int) <= (count as int) * (sc as int) <= (
            sc as int) * (self.max_iterations as int)) by (nonlinear_arith)
                requires
                    0 <= count as int <= self.max_iterations as int,
                    sc as int > 0,
            ;
            lemma_div_trunc_bounds(
                (count as int) * (sc as int),
                self.max_iterations as int,
                0,
                sc as int,
            );
        }
        let t = div_i128((count as i128) * (sc as i128), self.max_iterations as i128) as i64;
        self.shape(t)
    }

    /// Executable renormalized escape value, pinned to `spec_smooth`.
    pub fn smooth(&self, z: &Complex, iterations: usize) -> (r: i64)
        requires
            self.wf(),
            iterations <= self.max_iterations,
            -ORBIT_BOUND <= z.re <= ORBIT_BOUND,
            -ORBIT_BOUND <= z.im <= ORBIT_BOUND,
        ensures
            r == self.spec_smooth(*z, iterations),
            0 <= r <= (self.max_iterations as int + 66) * SCALE,
    {
        let sc: i64 = SCALE;
        let zre = z.re as i128;
        let zim = z.im as i128;
        proof {
            assert(0 <= zre * zre <= 0x1000_0000_0000_0000_0000_0000_0000)
                by (nonlinear_arith)
                requires
                    -0x40_0000_0000_0000 <= zre <= 0x40_0000_0000_0000,
            ;
            assert(0 <= zim * zim <= 0x1000_0000_0000_0000_0000_0000_0000)
                by (nonlinear_arith)
                requires
                    -0x40_0000_0000_0000 <= zim <= 0x40_0000_0000_0000,
            ;
            assert(0 <= (self.max_iterations as int) * (sc as int)
                <= 0x1000_0000_0000_0000_0000) by (nonlinear_arith)
                requires
                    0 < (self.max_iterations as int) && (self.max_iterations as int) < 0x1000_0000,
                    sc == 0x1_0000_0000,
            ;
            assert(0 <= (iterations as int) * (sc as int) <= (self.max_iterations as int) * (
            sc as int)) by (nonlinear_arith)
                requires
                    0 <= iterations as int <= self.max_iterations as int,
                    sc as int > 0,
            ;
            assert(0 <= (iterations as int + 1) * (sc as int) <= (self.max_iterations as int)
                * (sc as int) + sc as int) by (nonlinear_arith)
                requires
                    0 <= iterations as int <= self.max_iterations as int,
                    sc as int > 0,
            ;
        }
        let n: i128 = zre * zre + zim * zim;
        if n < 1 {
            return (iterations as i64) * sc;
        }
        let l1 = log2_fixed(n) - 64 * sc;
        let zn = div_i128(l1 as i128, 2) as i64;
        if zn < 1 {
            return (iterations as i64) * sc;
        }
        proof {
            crate::fixed::lemma_div_trunc_bounds(l1 as int, 2, -0x40_0000_0000, 0x40_0000_0000);
        }
        let nu = log2_fixed(zn as i128) - 32 * sc;
        let sr = ((iterations as i64) + 1) * sc - nu;
        if sr < 0 {
            0
        } else {
            sr
        }
    }

    /// Executable shaped smooth progress, pinned to
    /// `spec_smooth_progress`.
    fn smooth_progress(&self, z: &Complex, iterations: usize) -> (r: i64)
        requires
            self.wf(),
            iterations <= self.max_iterations,
            -ORBIT_BOUND <= z.re <= ORBIT_BOUND,
            -ORBIT_BOUND <= z.im <= ORBIT_BOUND,
        ensures
            r == self.spec_smooth_progress(*z, iterations),
            0 <= r <= SCALE,
    {
        let s_raw = self.smooth(z, iterations);
        proof {
            assert(0 * (self.max_iterations as int) <= s_raw as int) by (nonlinear_arith)
                requires
                    s_raw as int >= 0,
            ;
            assert(s_raw as int <= ((self.max_iterations as int + 66) * (SCALE as int)) * (
            self.max_iterations as int)) by (nonlinear_arith)
                requires
                    0 <= s_raw as int <= (self.max_iterations as int + 66) * (SCALE as int),
                    self.max_iterations as int >= 1,
            ;
            crate::fixed::lemma_div_trunc_bounds(
                s_raw as int,
                self.max_iterations as int,
                0,
                (self.max_iterations as int + 66) * (SCALE as int),
            );
        }
        let t0 = div_i128(s_raw as i128, self.max_iterations as i128) as i64;
        let t = if t0 > SCALE {
            SCALE
        } else {
            t0
        };
        self.shape(t)
    }

    /// The palette color of an escape count below the iteration budget.
    pub fn palette(&self, iterations: usize) -> (r: Color)
        requires
            self.wf(),
            iterations < self.max_iterations,
        ensures
            r == palette_color(
                self.palettes[self.selected_palette as int].colors@,
                self.spec_progress(iterations),
            ),
    {
        let s = self.progress(iterations);
        palette_lookup(&self.palettes[self.selected_palette].colors, s)
    }

    /// The procedural color of an escape count below the iteration
    /// budget.
    pub fn lch(&self, iterations: usize) -> (r: Color)
        requires
            self.wf(),
            iterations < self.max_iterations,
        ensures
            r == lch_color(self.spec_progress(iterations)),
    {
        let s = self.progress(iterations);
        lch_of(s)
    }

    /// Black for counts at or over the budget, the selected strategy's
    /// color otherwise.
    pub open spec fn spec_color_of_count(&self, count: usize) -> Color {
        if count >= self.max_iterations {
            Color { r: 0, g: 0, b: 0 }
        } else if self.coloring == Coloring::Palette {
            palette_color(
                self.palettes[self.selected_palette as int].colors@,
                self.spec_progress(count),
            )
        } else {
            lch_color(self.spec_progress(count))
        }
    }

    /// The color pixel `(x, y)` gets from the boundary-scanning path's
    /// count-only coloring.
    pub open spec fn spec_pixel_color(&self, x: int, y: int) -> Color {
        self.spec_color_of_count(self.spec_count_at(x, y))
    }

    /// Black for bounded orbits; otherwise the selected strategy's color
    /// of the renormalized smooth progress.
    pub open spec fn spec_color_of_escape(&self, e: EscapeResult) -> Color {
        match e {
            EscapeResult::Bounded => Color { r: 0, g: 0, b: 0 },
            EscapeResult::Escaped { iterations, z } => {
                if iterations >= self.max_iterations {
                    Color { r: 0, g: 0, b: 0 }
                } else if self.coloring == Coloring::Palette {
                    palette_color(
                        self.palettes[self.selected_palette as int].colors@,
                        self.spec_smooth_progress(z, iterations),
                    )
                } else {
                    lch_color(self.spec_smooth_progress(z, iterations))
                }
            },
        }
    }

    /// The color pixel `(x, y)` gets from full per-pixel evaluation with
    /// smooth coloring.
    pub open spec fn spec_pixel_smooth(&self, x: int, y: int) -> Color {
        self.spec_color_of_escape(
            kernel_spec(
                self.sample_at(x, y),
                self.bailout,
                self.max_iterations,
                self.period_length,
            ),
        )
    }

    /// Executable smooth-mode coloring of a kernel verdict.
    pub fn color_of_escape(&self, e: &EscapeResult) -> (r: Color)
        requires
            self.wf(),
            escaped_in_orbit(*e),
        ensures
            r == self.spec_color_of_escape(*e),
    {
        match e {
            EscapeResult::Bounded => Color::new(0, 0, 0),
            EscapeResult::Escaped { iterations, z } => {
                if *iterations >= self.max_iterations {
                    Color::new(0, 0, 0)
                } else {
                    let t = self.smooth_progress(z, *iterations);
                    match self.coloring {
                        Coloring::Palette => palette_lookup(
                            &self.palettes[self.selected_palette].colors,
                            t,
                        ),
                        Coloring::LCH => lch_of(t),
                    }
                }
            },
        }
    }

    /// The number of rows in one boundary-scanning band: an eighth of
    /// the image, at least one; the last band takes the remainder.
    pub open spec fn band_rows(&self) -> int {
        let r = self.spec_height() / 8;
        if r == 0 {
            1
        } else {
            r
        }
    }

    /// Number of boundary-scanning bands: enough bands of `band_rows`
    /// rows to cover the image, the last taking the remainder.
    pub open spec fn num_bands(&self) -> int {
        (self.spec_height() + self.band_rows() - 1) / self.band_rows()
    }

    /// First image row of band `b`.
    pub open spec fn band_start(&self, b: int) -> int {
        b * self.band_rows()
    }

    /// One past the last image row of band `b`.
    pub open spec fn band_end(&self, b: int) -> int {
        if (b + 1) * self.band_rows() > self.spec_height() {
            self.spec_height()
        } else {
            (b + 1) * self.band_rows()
        }
    }

    /// The pixels of band `b` hold the count-only colors of grid `g`.
    pub open spec fn band_pixels_ok(&self, p: Seq<u8>, b: int, g: Seq<usize>) -> bool {
        forall|li: int|
            0 <= li < (self.band_end(b) - self.band_start(b)) * self.spec_width() ==> {
                let j = self.spec_width() * self.band_start(b) + li;
                let c = #[trigger] self.spec_color_of_count(g[li]);
                p[4 * j] == c.r && p[4 * j + 1] == c.g && p[4 * j + 2] == c.b && p[4 * j + 3]
                    == 255
            }
    }

    /// Band `b` of the buffer colors some count grid that the scanner's
    /// contract admits, certificate included.
    pub open spec fn band_done(&self, p: Seq<u8>, b: int) -> bool {
        exists|g: Seq<usize>|
            crate::boundary_scanner::band_grid_ok(*self, self.band_start(b), self.band_end(b), g)
                && #[trigger] self.band_pixels_ok(p, b, g)
    }

    /// The Fast path's whole guarantee: every band's bytes color a count
    /// grid that the scanner's contract admits, certificate included.
    pub open spec fn fast_render_ok(&self, p: Seq<u8>) -> bool {
        forall|b: int| 0 <= b < self.num_bands() ==> #[trigger] self.band_done(p, b)
    }

    /// Pixel `j` lies on the frame of its boundary-scanning band: the
    /// leftmost or rightmost column, or a band's first or last row.
    pub open spec fn on_band_frame(&self, j: int) -> bool {
        let x = j % self.spec_width();
        let y = j / self.spec_width();
        ||| x == 0
        ||| x == self.spec_width() - 1
        ||| y % self.band_rows() == 0
        ||| y % self.band_rows() == self.band_rows() - 1
        ||| y == self.spec_height() - 1
    }

    /// Pixel `j` of a row-major RGBA8 buffer holds the count-only color
    /// of direct evaluation.
    pub open spec fn pixel_ok(&self, p: Seq<u8>, j: int) -> bool {
        let c = self.spec_pixel_color(j % self.spec_width(), j / self.spec_width());
        &&& p[4 * j] == c.r
        &&& p[4 * j + 1] == c.g
        &&& p[4 * j + 2] == c.b
        &&& p[4 * j + 3] == 255
    }

    /// Pixel `j` of a row-major RGBA8 buffer holds the smooth color of
    /// full per-pixel evaluation.
    pub open spec fn pixel_smooth_ok(&self, p: Seq<u8>, j: int) -> bool {
        let c = self.spec_pixel_smooth(j % self.spec_width(), j / self.spec_width());
        &&& p[4 * j] == c.r
        &&& p[4 * j + 1] == c.g
        &&& p[4 * j + 2] == c.b
        &&& p[4 * j + 3] == 255
    }

    /// Renders the frame into `pixels`, row-major RGBA8.  In `Smooth`
    /// mode every pixel holds the exact per-pixel color; in `Fast` mode
    /// the buffer is the boundary-scanning approximation, and at least
    /// the leftmost and rightmost columns (band borders of every band)
    /// are proved exact.
    pub fn render(&self, pixels: &mut Vec<u8>)
        requires
            self.wf(),
            old(pixels).len() == self.spec_width() * self.spec_height() * 4,
        ensures
            final(pixels).len() == self.spec_width() * self.spec_height() * 4,
            self.rendering == Rendering::Smooth ==> forall|j: int|
                0 <= j < self.spec_width() * self.spec_height() ==> self.pixel_smooth_ok(
                    final(pixels)@,
                    j,
                ),
            self.rendering == Rendering::Fast ==> forall|j: int|
                0 <= j < self.spec_width() * self.spec_height() && self.on_band_frame(j)
                    ==> self.pixel_ok(final(pixels)@, j),
            self.rendering == Rendering::Fast ==> forall|j: int|
                0 <= j < self.spec_width() * self.spec_height() ==> #[trigger] final(pixels)@[4 * j
                    + 3] == 255,
            self.rendering == Rendering::Fast ==> self.fast_render_ok(final(pixels)@),
    {
        match self.rendering {
            Rendering::Smooth => self.render_smooth(pixels),
            Rendering::Fast => self.render_fast(pixels),
        }
    }

    /// Full per-pixel evaluation: every pixel gets the kernel's verdict
    /// under the selected coloring strategy.
    fn render_smooth(&self, pixels: &mut Vec<u8>)
        requires
            self.wf(),
        ensures
            final(pixels).len() == self.spec_width() * self.spec_height() * 4,
            forall|j: int|
                0 <= j < self.spec_width() * self.spec_height() ==> self.pixel_smooth_ok(
                    final(pixels)@,
                    j,
                ),
    {
        let w = self.width();
        let h = self.height();
        proof {
            assert(w * h <= 4096 * 4096) by (nonlinear_arith)
                requires
                    0 < w <= 4096,
                    0 < h <= 4096,
            ;
        }
        let total = w * h;
        pixels.clear();
        let mut i: usize = 0;
        while i < total
            invariant
                self.wf(),
                w == self.spec_width(),
                h == self.spec_height(),
                total == w * h,
                total <= 4096 * 4096,
                i <= total,
                pixels@.len() == 4 * i,
                forall|j: int| 0 <= j < i ==> self.pixel_smooth_ok(pixels@, j),
            decreases total - i,
        {
            let x = i % w;
            let y = i / w;
            proof {
                vstd::arithmetic::div_mod::lemma_mod_bound(i as int, w as int);
                assert(w as int * (h as int) == h as int * (w as int)) by (nonlinear_arith);
                vstd::arithmetic::div_mod::lemma_multiply_divide_lt(i as int, w as int, h as int);
            }
            let c = self.sample(x, y);
            let e = self.iterate(&c);
            let color = self.color_of_escape(&e);
            let ghost prev = pixels@;
            pixels.push(color.r);
            pixels.push(color.g);
            pixels.push(color.b);
            pixels.push(255);
            i = i + 1;
            proof {
                assert forall|j: int| 0 <= j < i implies self.pixel_smooth_ok(pixels@, j) by {
                    if j < i - 1 {
                        assert(self.pixel_smooth_ok(prev, j));
                        assert(pixels@[4 * j] == prev[4 * j]);
                        assert(pixels@[4 * j + 1] == prev[4 * j + 1]);
                        assert(pixels@[4 * j + 2] == prev[4 * j + 2]);
                        assert(pixels@[4 * j + 3] == prev[4 * j + 3]);
                    } else {
                        assert(pixels@[4 * j] == color.r);
                        assert(pixels@[4 * j + 1] == color.g);
                        assert(pixels@[4 * j + 2] == color.b);
                        assert(pixels@[4 * j + 3] == 255u8);
                    }
                }
            }
        }
    }

    /// The boundary-scanning path: the image is split into horizontal
    /// bands, each scanned independently and colored from its count
    /// grid.
    fn render_fast(&self, pixels: &mut Vec<u8>)
        requires
            self.wf(),
        ensures
            final(pixels).len() == self.spec_width() * self.spec_height() * 4,
            forall|j: int|
                0 <= j < self.spec_width() * self.spec_height() && self.on_band_frame(j)
                    ==> self.pixel_ok(final(pixels)@, j),
            forall|j: int|
                0 <= j < self.spec_width() * self.spec_height() ==> #[trigger] final(pixels)@[4 * j
                    + 3] == 255,
            self.fast_render_ok(final(pixels)@),
    {
        let w = self.width();
        let h = self.height();
        proof {
            assert(w * h <= 4096 * 4096) by (nonlinear_arith)
                requires
                    0 < w <= 4096,
                    0 < h <= 4096,
            ;
        }
        let mut rows = h / 8;
        if rows == 0 {
            rows = 1;
        }
        pixels.clear();
        let mut start: usize = 0;
        let ghost mut bc: int = 0;
        while start < h
            invariant
                self.wf(),
                w == self.spec_width(),
                h == self.spec_height(),
                h <= 4096,
                1 <= rows <= 4096,
                rows == self.band_rows(),
                start % rows == 0 || start == h,
                start <= h,
                0 <= bc,
                start < h ==> start == bc * rows,
                start == h ==> bc == self.num_bands(),
                pixels@.len() == 4 * (w * start),
                forall|j: int|
                    0 <= j < w * start && self.on_band_frame(j) ==> self.pixel_ok(pixels@, j),
                forall|j: int| 0 <= j < w * start ==> #[trigger] pixels@[4 * j + 3] == 255,
                forall|b: int| 0 <= b < bc ==> #[trigger] self.band_done(pixels@, b),
            decreases h - start,
        {
            let endr = if start + rows > h {
                h
            } else {
                start + rows
            };
            let ghost band_base = pixels@;
            let mut scanner = crate::boundary_scanner::BoundaryScanner::new(self, start, endr);
            scanner.run();
            proof {
                assert((endr - start) * (w as int) <= 4096 * 4096 && w as int * (start as int)
                    <= 4096 * 4096 && w as int * (endr as int) <= 4096 * 4096)
                    by (nonlinear_arith)
                    requires
                        0 <= start as int && (start as int) < (endr as int) && (endr as int) <= (
                        h as int) && (h as int) <= 4096,
                        0 < w as int <= 4096,
                ;
            }
            let band = (endr - start) * w;
            let mut li: usize = 0;
            while li < band
                invariant
                    self.wf(),
                    w == self.spec_width(),
                    h == self.spec_height(),
                    scanner.wf(),
                    scanner.mandelbrot == self,
                    scanner.start == start,
                    scanner.end == endr,
                    start < endr <= h,
                    band == (endr - start) * w,
                    band == scanner.size(),
                    li <= band,
                    forall|k: int|
                        0 <= k < scanner.size() && scanner.border(k) ==> scanner.data@[k]
                            == scanner.exact(k),
                    rows == self.band_rows(),
                    start % rows == 0,
                    start == bc * rows,
                    endr == if start + rows > h {
                        h as int
                    } else {
                        start + rows
                    },
                    crate::boundary_scanner::band_grid_ok(*self, start as int, endr as int, scanner.data@),
                    pixels@.len() == 4 * (w * start) + 4 * li,
                    band_base.len() == 4 * (w * start),
                    forall|i: int| 0 <= i < band_base.len() ==> pixels@[i] == #[trigger] band_base[i],
                    forall|k: int|
                        0 <= k < li ==> {
                            let c = #[trigger] self.spec_color_of_count(scanner.data@[k]);
                            pixels@[4 * (w * start) + 4 * k] == c.r && pixels@[4 * (w * start) + 4
                                * k + 1] == c.g && pixels@[4 * (w * start) + 4 * k + 2] == c.b
                                && pixels@[4 * (w * start) + 4 * k + 3] == 255
                        },
                    forall|j: int|
                        0 <= j < w * start + li && self.on_band_frame(j) ==> self.pixel_ok(
                            pixels@,
                            j,
                        ),
                    forall|j: int| 0 <= j < w * start + li ==> #[trigger] pixels@[4 * j + 3] == 255,
                decreases band - li,
            {
                let count = scanner.data[li];
                let color = self.color_of_count(count);
                let ghost prev = pixels@;
                pixels.push(color.r);
                pixels.push(color.g);
                pixels.push(color.b);
                pixels.push(255);
                li = li + 1;
                proof {
                    let ww = w as int;
                    let jg = ww * (start as int) + (li - 1);
                    assert(jg == (start as int) * ww + (li - 1)) by (nonlinear_arith)
                        requires
                            jg == ww * (start as int) + (li - 1),
                    ;
                    vstd::arithmetic::div_mod::lemma_mod_bound(li - 1, ww);
                    vstd::arithmetic::div_mod::lemma_fundamental_div_mod(li - 1, ww);
                    assert(jg == (((li - 1) / ww) + start as int) * ww + (li - 1) % ww)
                        by (nonlinear_arith)
                        requires
                            jg == (start as int) * ww + (li - 1),
                            li - 1 == ww * ((li - 1) / ww) + (li - 1) % ww,
                    ;
                    vstd::arithmetic::div_mod::lemma_fundamental_div_mod_converse(
                        jg,
                        ww,
                        ((li - 1) / ww) + start as int,
                        (li - 1) % ww,
                    );
                    assert(jg % ww == (li - 1) % ww);
                    assert(jg / ww == start as int + (li - 1) / ww);
                    if self.on_band_frame(jg) {
                        let y = jg / ww;
                        let dy = (li - 1) / ww;
                        assert(y == start as int + dy);
                        assert(dy < endr as int - start as int) by {
                            assert(li - 1 < (endr as int - start as int) * ww);
                            assert((endr as int - start as int) * ww == ww * (endr as int
                                - start as int)) by (nonlinear_arith);
                            vstd::arithmetic::div_mod::lemma_multiply_divide_lt(
                                li - 1,
                                ww,
                                endr as int - start as int,
                            );
                        }
                        if jg % ww == 0 || jg % ww == ww - 1 {
                            assert(scanner.lx(li - 1) == jg % ww);
                            assert(scanner.border(li - 1));
                        } else {
                            // a frame row: the first or last row of this band
                            let rr = self.band_rows();
                            vstd::arithmetic::div_mod::lemma_fundamental_div_mod(
                                start as int,
                                rr,
                            );
                            assert(start as int == rr * (start as int / rr));
                            assert(start as int == (start as int / rr) * rr + 0)
                                by (nonlinear_arith)
                                requires
                                    start as int == rr * (start as int / rr),
                            ;
                            assert(y == (start as int / rr) * rr + dy);
                            assert(0 <= dy < rr) by {
                                assert(endr as int - start as int <= rr);
                            }
                            vstd::arithmetic::div_mod::lemma_fundamental_div_mod_converse(
                                y,
                                rr,
                                start as int / rr,
                                dy,
                            );
                            assert(y % rr == dy);
                            if y % rr == 0 {
                                assert(y == start as int);
                                assert(scanner.ly(li - 1) == scanner.start);
                            } else if y % rr == rr - 1 {
                                assert(y == start as int + rr - 1);
                                assert(y < endr as int && endr as int <= start as int + rr);
                                assert(y == endr as int - 1);
                                assert(scanner.ly(li - 1) == scanner.end - 1);
                            } else {
                                assert(y == h as int - 1);
                                assert(y <= endr as int - 1 <= h as int - 1);
                                assert(y == endr as int - 1);
                                assert(scanner.ly(li - 1) == scanner.end - 1);
                            }
                            assert(scanner.border(li - 1));
                        }
                        assert(scanner.data@[li - 1] == scanner.exact(li - 1));
                        assert(self.spec_count_at(jg % ww, jg / ww) == scanner.exact(li - 1));
                    }
                    assert forall|i: int|
                        0 <= i < band_base.len() implies pixels@[i] == #[trigger] band_base[i] by {
                        assert(pixels@[i] == prev[i]);
                    }
                    assert forall|k: int| 0 <= k < li implies {
                        let c = #[trigger] self.spec_color_of_count(scanner.data@[k]);
                        pixels@[4 * (w * start) + 4 * k] == c.r && pixels@[4 * (w * start) + 4 * k
                            + 1] == c.g && pixels@[4 * (w * start) + 4 * k + 2] == c.b && pixels@[4
                            * (w * start) + 4 * k + 3] == 255
                    } by {
                        if k < li - 1 {
                            assert(pixels@[4 * (w * start) + 4 * k] == prev[4 * (w * start) + 4
                                * k]);
                            assert(pixels@[4 * (w * start) + 4 * k + 1] == prev[4 * (w * start) + 4
                                * k + 1]);
                            assert(pixels@[4 * (w * start) + 4 * k + 2] == prev[4 * (w * start) + 4
                                * k + 2]);
                            assert(pixels@[4 * (w * start) + 4 * k + 3] == prev[4 * (w * start) + 4
                                * k + 3]);
                        } else {
                            assert(k == li - 1);
                            assert(self.spec_color_of_count(count)
                                == self.spec_color_of_count(scanner.data@[k]));
                            assert(4 * (w * start) + 4 * k == 4 * jg);
                            assert(pixels@[4 * jg] == color.r);
                            assert(pixels@[4 * jg + 1] == color.g);
                            assert(pixels@[4 * jg + 2] == color.b);
                            assert(pixels@[4 * jg + 3] == 255u8);
                        }
                    }
                    assert forall|j: int| 0 <= j < w * start + li implies #[trigger] pixels@[4
                        * j + 3] == 255 by {
                        if j < w * start + li - 1 {
                            assert(prev[4 * j + 3] == 255);
                            assert(pixels@[4 * j + 3] == prev[4 * j + 3]);
                        } else {
                            assert(j == jg);
                            assert(pixels@[4 * j + 3] == 255u8);
                        }
                    }
                    assert forall|j: int|
                        0 <= j < w * start + li && self.on_band_frame(j) implies self.pixel_ok(
                        pixels@,
                        j,
                    ) by {
                        if j < w * start + li - 1 {
                            assert(self.pixel_ok(prev, j));
                            assert(pixels@[4 * j] == prev[4 * j]);
                            assert(pixels@[4 * j + 1] == prev[4 * j + 1]);
                            assert(pixels@[4 * j + 2] == prev[4 * j + 2]);
                            assert(pixels@[4 * j + 3] == prev[4 * j + 3]);
                        } else {
                            assert(j == jg);
                            assert(pixels@[4 * j] == color.r);
                            assert(pixels@[4 * j + 1] == color.g);
                            assert(pixels@[4 * j + 2] == color.b);
                            assert(pixels@[4 * j + 3] == 255u8);
                        }
                    }
                }
            }
            proof {
                assert(w as int * (start as int) + (endr as int - start as int) * (w as int) == w
                    as int * (endr as int)) by (nonlinear_arith);
                if endr < h {
                    assert(endr == start + rows);
                    vstd::arithmetic::div_mod::lemma_mod_add_multiples_vanish(
                        start as int,
                        rows as int,
                    );
                    assert((start as int + rows as int) % (rows as int) == start as int % (
                    rows as int));
                }
                // this band is band `bc`: its pixels color the scanner's
                // finished, certified grid
                assert(self.band_start(bc) == start as int) by (nonlinear_arith)
                    requires
                        start as int == bc * (rows as int),
                        self.band_start(bc) == bc * self.band_rows(),
                        rows as int == self.band_rows(),
                ;
                assert((bc + 1) * (rows as int) == start as int + rows as int)
                    by (nonlinear_arith)
                    requires
                        start as int == bc * (rows as int),
                ;
                assert(self.band_end(bc) == endr as int);
                assert(crate::boundary_scanner::band_grid_ok(
                    *self,
                    self.band_start(bc),
                    self.band_end(bc),
                    scanner.data@,
                ));
                assert(self.band_pixels_ok(pixels@, bc, scanner.data@));
                assert(self.band_done(pixels@, bc));
                assert forall|b: int| 0 <= b < bc + 1 implies #[trigger] self.band_done(
                    pixels@,
                    b,
                ) by {
                    if b < bc {
                        assert(self.band_done(band_base, b));
                        let g = choose|g: Seq<usize>|
                            crate::boundary_scanner::band_grid_ok(
                                *self,
                                self.band_start(b),
                                self.band_end(b),
                                g,
                            ) && #[trigger] self.band_pixels_ok(band_base, b, g);
                        assert(self.band_end(b) <= bc * (rows as int)) by (nonlinear_arith)
                            requires
                                0 <= b,
                                b + 1 <= bc,
                                self.band_end(b) <= (b + 1) * self.band_rows(),
                                rows as int == self.band_rows(),
                                self.band_rows() >= 1,
                        ;
                        assert forall|li2: int|
                            0 <= li2 < (self.band_end(b) - self.band_start(b))
                                * self.spec_width() implies {
                            let j = self.spec_width() * self.band_start(b) + li2;
                            let c = #[trigger] self.spec_color_of_count(g[li2]);
                            pixels@[4 * j] == c.r && pixels@[4 * j + 1] == c.g && pixels@[4 * j
                                + 2] == c.b && pixels@[4 * j + 3] == 255
                        } by {
                            let j = self.spec_width() * self.band_start(b) + li2;
                            assert(self.band_start(b) >= 0) by (nonlinear_arith)
                                requires
                                    0 <= b,
                                    self.band_start(b) == b * self.band_rows(),
                                    self.band_rows() >= 1,
                            ;
                            assert(li2 < (self.band_end(b) - self.band_start(b))
                                * self.spec_width() ==> self.band_start(b) * self.spec_width()
                                + li2 < self.band_end(b) * self.spec_width()) by (nonlinear_arith);
                            assert(self.spec_width() * self.band_start(b) == self.band_start(b)
                                * self.spec_width()) by (nonlinear_arith);
                            assert(self.band_end(b) * self.spec_width() <= (bc * (rows as int)) * (
                            w as int)) by (nonlinear_arith)
                                requires
                                    self.band_end(b) <= bc * (rows as int),
                                    self.spec_width() == w as int,
                                    w as int >= 1,
                                    self.band_end(b) >= 0,
                            ;
                            assert((bc * (rows as int)) * (w as int) == w as int * (start as int))
                                by (nonlinear_arith)
                                requires
                                    start as int == bc * (rows as int),
                            ;
                            assert(4 * j + 3 < band_base.len());
                            assert(pixels@[4 * j] == band_base[4 * j]);
                            assert(pixels@[4 * j + 1] == band_base[4 * j + 1]);
                            assert(pixels@[4 * j + 2] == band_base[4 * j + 2]);
                            assert(pixels@[4 * j + 3] == band_base[4 * j + 3]);
                        }
                        assert(self.band_pixels_ok(pixels@, b, g));
                        assert(self.band_done(pixels@, b));
                    }
                }
                bc = bc + 1;
                if endr == h {
                    // the band count comes out exactly
                    let r = h as int - 1 - (bc - 1) * (rows as int);
                    assert(0 <= r < rows as int) by (nonlinear_arith)
                        requires
                            start as int == (bc - 1) * (rows as int),
                            (start as int) < h as int,
                            h as int <= start as int + rows as int,
                            r == h as int - 1 - (bc - 1) * (rows as int),
                    ;
                    assert(h as int + rows as int - 1 == bc * (rows as int) + r)
                        by (nonlinear_arith)
                        requires
                            r == h as int - 1 - (bc - 1) * (rows as int),
                    ;
                    vstd::arithmetic::div_mod::lemma_fundamental_div_mod_converse(
                        h as int + rows as int - 1,
                        rows as int,
                        bc,
                        r,
                    );
                    assert(self.num_bands() == bc);
                }
            }
            start = endr;
        }
        proof {
            assert(w as int * (h as int) == h as int * (w as int)) by (nonlinear_arith);
        }
    }

    /// Executable coloring of a silent-mode escape count.
    pub fn color_of_count(&self, count: usize) -> (r: Color)
        requires
            self.wf(),
        ensures
            r == self.spec_color_of_count(count),
    {
        if count >= self.max_iterations {
            Color::new(0, 0, 0)
        } else {
            match self.coloring {
                Coloring::Palette => self.palette(count),
                Coloring::LCH => self.lch(count),
            }
        }
    }
}

impl Mandelbrot {
    /// Whether the zoom transform's results stay inside the coordinate
    /// budget: extents at least one unit and within `ZOOM_BOUND`, the new
    /// centre plus its extent within `POSITION_BOUND`.
    pub open spec fn zoom_fits(&self, x: int, y: int, factor: int) -> bool {
        let s = SCALE as int;
        let px = scale_exact(self.width_range(), x, self.real_range());
        let py = scale_exact(self.height_range(), y, self.imaginary_range());
        let zx = div_trunc(self.zoom.x * factor, s);
        let zy = div_trunc(self.zoom.y * factor, s);
        &&& 1 <= zx <= ZOOM_BOUND
        &&& 1 <= zy <= ZOOM_BOUND
        &&& abs_int(px) + zx <= POSITION_BOUND
        &&& abs_int(py) + zy <= POSITION_BOUND
    }

    /// The zoom transform, applied only when its results fit: recentres
    /// on the clicked screen point (fixed-point screen coordinates) and
    /// scales both zoom extents by `factor/SCALE`.
    pub fn try_zoom(&mut self, x: i64, y: i64, factor: i64) -> (applied: bool)
        requires
            old(self).wf(),
            0 <= x <= old(self).width_range().max,
            0 <= y <= old(self).height_range().max,
            0 < factor,
        ensures
            final(self).wf(),
            applied == old(self).zoom_fits(x as int, y as int, factor as int),
            applied ==> final(self).position.x == scale_exact(
                old(self).width_range(),
                x as int,
                old(self).real_range(),
            ) && final(self).position.y == scale_exact(
                old(self).height_range(),
                y as int,
                old(self).imaginary_range(),
            ) && final(self).zoom.x == div_trunc(old(self).zoom.x * factor, SCALE as int)
                && final(self).zoom.y == div_trunc(old(self).zoom.y * factor, SCALE as int),
            !applied ==> *final(self) == *old(self),
            final(self).resolutions == old(self).resolutions,
            final(self).selected_resolution == old(self).selected_resolution,
            final(self).rendering == old(self).rendering,
            final(self).bailout == old(self).bailout,
            final(self).max_iterations == old(self).max_iterations,
            final(self).chunk_size == old(self).chunk_size,
            final(self).period_length == old(self).period_length,
            final(self).coloring == old(self).coloring,
            final(self).exponent == old(self).exponent,
            final(self).palettes == old(self).palettes,
            final(self).selected_palette == old(self).selected_palette,
    {
        let (width_range, height_range, real_range, imaginary_range) = self.ranges();
        proof {
            lemma_scale_in_output(self.width_range(), x as int, self.real_range());
            lemma_scale_in_output(self.height_range(), y as int, self.imaginary_range());
        }
        let px = Range::scale(&width_range, x, &real_range);
        let py = Range::scale(&height_range, y, &imaginary_range);
        proof {
            assert((self.zoom.x as int) * (factor as int) <= 0x8_0000_0000_0000i128 * 0x7fff_ffff_ffff_ffffi128
                && (self.zoom.x as int) * (factor as int) >= 0) by (nonlinear_arith)
                requires
                    0 < self.zoom.x as int <= 0x8_0000_0000_0000,
                    0 < factor as int <= 0x7fff_ffff_ffff_ffff,
            ;
            assert((self.zoom.y as int) * (factor as int) <= 0x8_0000_0000_0000i128 * 0x7fff_ffff_ffff_ffffi128
                && (self.zoom.y as int) * (factor as int) >= 0) by (nonlinear_arith)
                requires
                    0 < self.zoom.y as int <= 0x8_0000_0000_0000,
                    0 < factor as int <= 0x7fff_ffff_ffff_ffff,
            ;
        }
        let zx128 = div_i128((self.zoom.x as i128) * (factor as i128), SCALE as i128);
        let zy128 = div_i128((self.zoom.y as i128) * (factor as i128), SCALE as i128);
        if 1 <= zx128 && zx128 <= ZOOM_BOUND as i128 && 1 <= zy128 && zy128 <= ZOOM_BOUND
            as i128 {
            let zx = zx128 as i64;
            let zy = zy128 as i64;
            let pax = if px >= 0 {
                px
            } else {
                -px
            };
            let pay = if py >= 0 {
                py
            } else {
                -py
            };
            if pax + zx <= POSITION_BOUND && pay + zy <= POSITION_BOUND {
                self.position = Vector { x: px, y: py };
                self.zoom = Vector { x: zx, y: zy };
                return true;
            }
        }
        false
    }

    /// The zoom transform for callers that already know the results fit.
    pub fn zoom(&mut self, x: i64, y: i64, factor: i64)
        requires
            old(self).wf(),
            0 <= x <= old(self).width_range().max,
            0 <= y <= old(self).height_range().max,
            0 < factor,
            old(self).zoom_fits(x as int, y as int, factor as int),
        ensures
            final(self).wf(),
            final(self).position.x == scale_exact(
                old(self).width_range(),
                x as int,
                old(self).real_range(),
            ),
            final(self).position.y == scale_exact(
                old(self).height_range(),
                y as int,
                old(self).imaginary_range(),
            ),
            final(self).zoom.x == div_trunc(old(self).zoom.x * factor, SCALE as int),
            final(self).zoom.y == div_trunc(old(self).zoom.y * factor, SCALE as int),
            final(self).resolutions == old(self).resolutions,
            final(self).selected_resolution == old(self).selected_resolution,
            final(self).rendering == old(self).rendering,
            final(self).bailout == old(self).bailout,
            final(self).max_iterations == old(self).max_iterations,
            final(self).chunk_size == old(self).chunk_size,
            final(self).period_length == old(self).period_length,
            final(self).coloring == old(self).coloring,
            final(self).exponent == old(self).exponent,
            final(self).palettes == old(self).palettes,
            final(self).selected_palette == old(self).selected_palette,
    {
        let applied = self.try_zoom(x, y, factor);
        proof {
            assert(applied);
        }
    }
}

impl Default for Mandelbrot {
    /// The documented startup state: 720p, the boundary-scanning
    /// renderer, procedural coloring, a squared-magnitude bailout of
    /// 2^16, a thousand iterations and a snapshot interval of twenty.
    fn default() -> (r: Self)
        ensures
            r.wf(),
            r.spec_width() == 1280,
            r.spec_height() == 720,
            r.position == (Vector { x: -0x8000_0000i64, y: 0 }),
            r.zoom == (Vector { x: 0x2_0000_0000, y: 0x1_2000_0000 }),
            r.rendering == Rendering::Fast,
            r.bailout == BAILOUT_BOUND,
            r.max_iterations == 1000,
            r.chunk_size == 256,
            r.period_length == 20,
            r.coloring == Coloring::LCH,
            r.exponent == 1,
            r.palettes.len() == 3,
            r.selected_palette == 0,
            r.resolutions@ == seq![
                (320usize, 180usize),
                (640usize, 360usize),
                (960usize, 540usize),
                (1280usize, 720usize),
                (1600usize, 900usize),
                (1920usize, 1080usize),
                (3840usize, 2160usize),
            ],
            r.palettes@[0].name@ == "Rust"@,
            r.palettes@[1].name@ == "Cold Teal"@,
            r.palettes@[2].name@ == "Sunset"@,
            r.palettes@[0].colors@ == seq![
                Color { r: 0x3e, g: 0x00, b: 0x00 },
                Color { r: 0x6b, g: 0x1d, b: 0x09 },
                Color { r: 0x9a, g: 0x54, b: 0x2e },
                Color { r: 0xbf, g: 0x93, b: 0x5c },
                Color { r: 0xd0, g: 0xc8, b: 0xa8 },
            ],
            r.palettes@[1].colors@ == seq![
                Color { r: 0xe3, g: 0xfd, b: 0xfd },
                Color { r: 0xcb, g: 0xf1, b: 0xf5 },
                Color { r: 0xa6, g: 0xe3, b: 0xe9 },
                Color { r: 0x71, g: 0xc9, b: 0xce },
            ],
            r.palettes@[2].colors@ == seq![
                Color { r: 0xf9, g: 0xed, b: 0x69 },
                Color { r: 0xf0, g: 0x8a, b: 0x5d },
                Color { r: 0xb8, g: 0x3b, b: 0x5e },
                Color { r: 0x6a, g: 0x2c, b: 0x70 },
            ],
    {
        let mut resolutions: Vec<(usize, usize)> = Vec::new();
        resolutions.push((320, 180));
        resolutions.push((640, 360));
        resolutions.push((960, 540));
        resolutions.push((1280, 720));
        resolutions.push((1600, 900));
        resolutions.push((1920, 1080));
        resolutions.push((3840, 2160));
        let mut rust_colors: Vec<Color> = Vec::new();
        rust_colors.push(Color::new(0x3e, 0x00, 0x00));
        rust_colors.push(Color::new(0x6b, 0x1d, 0x09));
        rust_colors.push(Color::new(0x9a, 0x54, 0x2e));
        rust_colors.push(Color::new(0xbf, 0x93, 0x5c));
        rust_colors.push(Color::new(0xd0, 0xc8, 0xa8));
        let mut teal_colors: Vec<Color> = Vec::new();
        teal_colors.push(Color::new(0xe3, 0xfd, 0xfd));
        teal_colors.push(Color::new(0xcb, 0xf1, 0xf5));
        teal_colors.push(Color::new(0xa6, 0xe3, 0xe9));
        teal_colors.push(Color::new(0x71, 0xc9, 0xce));
        let mut sunset_colors: Vec<Color> = Vec::new();
        sunset_colors.push(Color::new(0xf9, 0xed, 0x69));
        sunset_colors.push(Color::new(0xf0, 0x8a, 0x5d));
        sunset_colors.push(Color::new(0xb8, 0x3b, 0x5e));
        sunset_colors.push(Color::new(0x6a, 0x2c, 0x70));
        let mut palettes: Vec<Palette> = Vec::new();
        palettes.push(Palette { name: String::from_str("Rust"), colors: rust_colors });
        palettes.push(Palette { name: String::from_str("Cold Teal"), colors: teal_colors });
        palettes.push(Palette { name: String::from_str("Sunset"), colors: sunset_colors });
        proof {
            assert(resolutions@ =~= seq![
                (320usize, 180usize),
                (640usize, 360usize),
                (960usize, 540usize),
                (1280usize, 720usize),
                (1600usize, 900usize),
                (1920usize, 1080usize),
                (3840usize, 2160usize),
            ]);
            assert(palettes@[0].colors@ =~= seq![
                Color { r: 0x3e, g: 0x00, b: 0x00 },
                Color { r: 0x6b, g: 0x1d, b: 0x09 },
                Color { r: 0x9a, g: 0x54, b: 0x2e },
                Color { r: 0xbf, g: 0x93, b: 0x5c },
                Color { r: 0xd0, g: 0xc8, b: 0xa8 },
            ]);
            assert(palettes@[1].colors@ =~= seq![
                Color { r: 0xe3, g: 0xfd, b: 0xfd },
                Color { r: 0xcb, g: 0xf1, b: 0xf5 },
                Color { r: 0xa6, g: 0xe3, b: 0xe9 },
                Color { r: 0x71, g: 0xc9, b: 0xce },
            ]);
            assert(palettes@[2].colors@ =~= seq![
                Color { r: 0xf9, g: 0xed, b: 0x69 },
                Color { r: 0xf0, g: 0x8a, b: 0x5d },
                Color { r: 0xb8, g: 0x3b, b: 0x5e },
                Color { r: 0x6a, g: 0x2c, b: 0x70 },
            ]);
        }
        Mandelbrot {
            resolutions,
            selected_resolution: 3,
            position: Vector { x: -0x8000_0000, y: 0 },
            zoom: Vector { x: 0x2_0000_0000, y: 0x1_2000_0000 },
            rendering: Rendering::Fast,
            bailout: BAILOUT_BOUND,
            max_iterations: 1000,
            chunk_size: 256,
            period_length: 20,
            coloring: Coloring::LCH,
            exponent: 1,
            palettes,
            selected_palette: 0,
        }
    }
}

/// Executable palette lookup, pinned to `palette_color`.
pub fn palette_lookup(colors: &Vec<Color>, s: i64) -> (r: Color)
    requires
        2 <= colors.len() <= 64,
        0 <= s <= SCALE,
    ensures
        r == palette_color(colors@, s as int),
{
    let sc: i64 = SCALE;
    proof {
        assert(0 <= (s as int) * (sc as int) * (sc as int) <= 0x1_0000_0000_0000_0000_0000_0000)
            by (nonlinear_arith)
            requires
                0 <= s as int <= sc as int,
                sc == 0x1_0000_0000,
        ;
        assert(0 <= (s as int) * (sc as int) <= 0x1_0000_0000_0000_0000) by (nonlinear_arith)
            requires
                0 <= s as int <= sc as int,
                sc == 0x1_0000_0000,
        ;
    }
    let w3 = icbrt((s as i128) * (sc as i128) * (sc as i128));
    proof {
        assert(w3 as int <= sc as int) by (nonlinear_arith)
            requires
                (w3 as int) * (w3 as int) * (w3 as int) <= (sc as int) * (sc as int) * (
                sc as int),
                w3 as int >= 0,
                sc as int > 0,
        ;
        assert(0 <= (w3 as int) * (colors.len() - 1) <= 63 * (sc as int)) by (nonlinear_arith)
            requires
                0 <= w3 as int <= sc as int,
                1 <= colors.len() - 1 <= 63,
        ;
    }
    let pos = w3 * ((colors.len() - 1) as i64);
    let seg64 = div_i128(pos as i128, sc as i128) as i64;
    proof {
        lemma_div_trunc_bounds(pos as int, sc as int, 0, 63);
        crate::fixed::lemma_div_trunc_fundamental(pos as int, sc as int);
    }
    let frac = pos - seg64 * sc;
    let seg = seg64 as usize;
    if seg >= colors.len() - 1 {
        colors[colors.len() - 1]
    } else {
        Color::lerp(&colors[seg], &colors[seg + 1], frac)
    }
}

/// Executable procedural coloring, pinned to `lch_color`.
fn lch_of(s: i64) -> (r: Color)
    requires
        0 <= s <= SCALE,
    ensures
        r == lch_color(s as int),
{
    let sc: i64 = SCALE;
    proof {
        assert(0 <= (s as int) * (sc as int - s as int) && 4 * ((s as int) * (sc as int - s
            as int)) <= (sc as int) * (sc as int)) by (nonlinear_arith)
            requires
                0 <= s as int <= sc as int,
        ;
        assert(0x4000_0000 * (sc as int) * 4 == (sc as int) * (sc as int)) by (nonlinear_arith)
            requires
                sc == 0x1_0000_0000,
        ;
        assert((s as int) * (sc as int - s as int) <= 0x4000_0000 * (sc as int))
            by (nonlinear_arith)
            requires
                4 * ((s as int) * (sc as int - s as int)) <= (sc as int) * (sc as int),
                0x4000_0000 * (sc as int) * 4 == (sc as int) * (sc as int),
        ;
        lemma_div_trunc_bounds((s as int) * (sc as int - s as int), sc as int, 0, 0x4000_0000);
    }
    let a = div_i128((s as i128) * (sc as i128 - s as i128), sc as i128) as i64;
    let denom: i64 = 5 * sc - 4 * a;
    proof {
        assert(0 <= 16 * (a as int) * (sc as int) && 16 * (a as int) * (sc as int) <= (
        sc as int) * (denom as int)) by (nonlinear_arith)
            requires
                0 <= a as int <= 0x4000_0000,
                denom as int == 5 * (sc as int) - 4 * (a as int),
                sc == 0x1_0000_0000,
        ;
        lemma_div_trunc_bounds(16 * (a as int) * (sc as int), denom as int, 0, sc as int);
    }
    let sinv = div_i128(16 * (a as i128) * (sc as i128), denom as i128) as i64;
    proof {
        assert(0 * (sc as int) <= (sinv as int) * (sinv as int) <= (sc as int) * (sc as int))
            by (nonlinear_arith)
            requires
                0 <= sinv as int <= sc as int,
        ;
        lemma_div_trunc_bounds((sinv as int) * (sinv as int), sc as int, 0, sc as int);
    }
    let v = div_i128((sinv as i128) * (sinv as i128), sc as i128) as i64;
    let value = sc - v;
    let cf = 28 * sc + 75 * (sc - v);
    proof {
        lemma_div_trunc_bounds(cf as int, 103, 0, sc as int);
    }
    let sat = div_i128(cf as i128, 103) as i64;
    let u = 360 * s;
    let q = div_i128(u as i128, 360 * (sc as i128)) as i64;
    proof {
        crate::fixed::lemma_div_trunc_fundamental(u as int, 360 * (sc as int));
    }
    let h = u - q * (360 * sc);
    Color::to_rgb(&HSV { hue: h, saturation: sat, value })
}

/// A sample already past the bailout threshold escapes after exactly one
/// step, carrying itself as the final orbit value: the kernel never
/// wastes iterations on a point far outside the set.
pub proof fn lemma_far_sample_escapes_fast(
    c: Complex,
    bailout: i64,
    max_iterations: usize,
    period_length: usize,
)
    requires
        kernel_params_ok(c, bailout, max_iterations, period_length),
        max_iterations >= 2,
        !(in_main_cardioid(c) || in_period2_bulb(c)),
        nsq(c.re as int, c.im as int) >= (bailout as int) * (SCALE as int),
    ensures
        kernel_spec(c, bailout, max_iterations, period_length) == (EscapeResult::Escaped {
            iterations: 1usize,
            z: c,
        }),
{
    let s = SCALE as int;
    let z0 = Complex { re: 0, im: 0 };
    assert((bailout as int) * s > 0) by (nonlinear_arith)
        requires
            bailout as int > 0,
            s > 0,
    ;
    assert(div_trunc(0, s) == 0) by {
        crate::fixed::lemma_div_trunc_multiple(0, s);
        assert(0 * s == 0) by (nonlinear_arith);
    }
    assert(z0.re as int * z0.re - z0.im * z0.im == 0) by (nonlinear_arith)
        requires
            z0.re == 0,
            z0.im == 0,
    ;
    assert(2 * (z0.re as int) * z0.im == 0) by (nonlinear_arith)
        requires
            z0.re == 0,
            z0.im == 0,
    ;
    assert(step_re(z0, c) == c.re);
    assert(step_im(z0, c) == c.im);
    assert(!(c.re == 0 && c.im == 0)) by (nonlinear_arith)
        requires
            nsq(c.re as int, c.im as int) >= (bailout as int) * s,
            (bailout as int) * s > 0,
            nsq(c.re as int, c.im as int) == (c.re as int) * (c.re as int) + (c.im as int) * (
            c.im as int),
    ;
    let snapshot = 0 + 1 > period_length;
    let old1 = if snapshot {
        c
    } else {
        z0
    };
    let per1: usize = if snapshot {
        0
    } else {
        1
    };
    assert(escape_from(z0, z0, 0, 0, c, bailout, max_iterations, period_length) == escape_from(
        c,
        old1,
        per1,
        1,
        c,
        bailout,
        max_iterations,
        period_length,
    ));
    assert(escape_from(c, old1, per1, 1, c, bailout, max_iterations, period_length)
        == (EscapeResult::Escaped { iterations: 1usize, z: c }));
}

/// An orbit that repeats exactly is caught by the periodicity check: for
/// the sample `i` with snapshot interval 1 and bailout 4, the kernel
/// reports `Bounded` under every iteration budget of at least five, so
/// detection happens strictly before the budget is exhausted.
pub proof fn lemma_cycle_detected(max_iterations: usize)
    requires
        5 <= max_iterations < 0x1000_0000,
    ensures
        kernel_spec(Complex { re: 0, im: SCALE }, 0x4_0000_0000, max_iterations, 1)
            == EscapeResult::Bounded,
{
    let s = SCALE as int;
    let c = Complex { re: 0, im: SCALE };
    let b: i64 = 0x4_0000_0000;
    let z0 = Complex { re: 0, im: 0 };
    let z1 = Complex { re: 0, im: SCALE };
    let z2 = Complex { re: -0x1_0000_0000i64, im: SCALE };
    let z3 = Complex { re: 0, im: -0x1_0000_0000i64 };
    assert(abs_int(c.im as int) == s);
    assert(div_trunc(c.im as int, 0x1_0000) == 0x1_0000) by {
        crate::fixed::lemma_div_trunc_multiple(0x1_0000, 0x1_0000);
        assert(0x1_0000 * 0x1_0000 == 0x1_0000_0000) by (nonlinear_arith);
    }
    assert(div_trunc(0, 0x1_0000) == 0) by {
        crate::fixed::lemma_div_trunc_multiple(0, 0x1_0000);
        assert(0 * 0x1_0000 == 0) by (nonlinear_arith);
    }
    assert(div_trunc(0, s) == 0) by {
        crate::fixed::lemma_div_trunc_multiple(0, s);
        assert(0 * s == 0) by (nonlinear_arith);
    }
    assert(!in_main_cardioid(c)) by {
        let xs = div_trunc(c.re as int, 0x1_0000);
        let ys = div_trunc(c.im as int, 0x1_0000);
        assert(xs == 0 && ys == 0x1_0000);
        assert((0 - 0x4000) * (0 - 0x4000) == 0x1000_0000int) by (nonlinear_arith);
        assert(0x1_0000int * 0x1_0000 == 0x1_0000_0000int) by (nonlinear_arith);
        let q = (xs - 0x4000) * (xs - 0x4000) + ys * ys;
        assert(q == 0x1_1000_0000int);
        assert((0 - 0x4000) * 0x1_0000 == -0x4000_0000int) by (nonlinear_arith);
        assert(q + (xs - 0x4000) * 0x1_0000 == 0xD000_0000int);
        assert(0x1_1000_0000int * 0xD000_0000 == 0xDD00_0000_0000_0000int) by (nonlinear_arith);
        assert(0x1_0000_0000int * 0x4000_0000 == 0x4000_0000_0000_0000int) by (nonlinear_arith);
        assert(ys * ys * 0x4000_0000 == 0x4000_0000_0000_0000int) by (nonlinear_arith)
            requires
                ys == 0x1_0000,
        ;
        assert(q * (q + (xs - 0x4000) * 0x1_0000) == 0xDD00_0000_0000_0000int)
            by (nonlinear_arith)
            requires
                q == 0x1_1000_0000,
                q + (xs - 0x4000) * 0x1_0000 == 0xD000_0000,
        ;
    }
    assert(!in_period2_bulb(c)) by {
        let xs = div_trunc(c.re as int, 0x1_0000);
        let ys = div_trunc(c.im as int, 0x1_0000);
        assert(xs == 0 && ys == 0x1_0000);
        assert((0 + 0x1_0000) * (0 + 0x1_0000) == 0x1_0000_0000int) by (nonlinear_arith);
        assert(0x1_0000int * 0x1_0000 == 0x1_0000_0000int) by (nonlinear_arith);
    }
    assert(div_trunc(0 - s * s, s) == -s) by {
        assert(abs_int(0 - s * s) == s * s);
        crate::fixed::lemma_div_trunc_multiple(s, s);
        assert(div_trunc(s * s, s) == s);
    }
    assert(div_trunc(s * s - s * s, s) == 0);
    assert(div_trunc(2 * (0 - s) * s, s) == -(2 * s)) by {
        crate::fixed::lemma_div_trunc_multiple(-(2 * s), s);
        assert(2 * (0 - s) * s == (-(2 * s)) * s) by (nonlinear_arith);
    }
    assert(div_trunc(2 * s * 0, s) == 0) by {
        assert(2 * s * 0 == 0) by (nonlinear_arith);
    }
    // step from 0 gives i
    assert(step_re(z0, c) == 0 && step_im(z0, c) == s);
    // step from i gives -1 + i
    assert(step_re(z1, c) == -s && step_im(z1, c) == s) by {
        assert(z1.re as int * z1.re - z1.im * z1.im == 0 - s * s) by (nonlinear_arith)
            requires
                z1.re == 0,
                z1.im as int == s,
        ;
        assert(2 * (z1.re as int) * z1.im == 2 * s * 0 * 1) by (nonlinear_arith)
            requires
                z1.re == 0,
        ;
        assert(2 * s * 0 * 1 == 0) by (nonlinear_arith);
        assert(div_trunc(0, s) == 0);
    }
    // step from -1 + i gives -i
    assert(step_re(z2, c) == 0 && step_im(z2, c) == -s) by {
        assert(z2.re as int * z2.re - z2.im * z2.im == s * s - s * s) by (nonlinear_arith)
            requires
                z2.re as int == -s,
                z2.im as int == s,
        ;
        assert(2 * (z2.re as int) * z2.im == 2 * (0 - s) * s) by (nonlinear_arith)
            requires
                z2.re as int == -s,
                z2.im as int == s,
        ;
    }
    // step from -i gives -1 + i again
    assert(step_re(z3, c) == -s && step_im(z3, c) == s) by {
        assert(z3.re as int * z3.re - z3.im * z3.im == 0 - s * s) by (nonlinear_arith)
            requires
                z3.re == 0,
                z3.im as int == -s,
        ;
        assert(2 * (z3.re as int) * z3.im == 2 * s * 0 * 1) by (nonlinear_arith)
            requires
                z3.re == 0,
        ;
        assert(2 * s * 0 * 1 == 0) by (nonlinear_arith);
        assert(div_trunc(0, s) == 0);
    }
    assert(nsq(z0.re as int, z0.im as int) == 0) by (nonlinear_arith)
        requires
            z0.re == 0,
            z0.im == 0,
    ;
    assert(nsq(z1.re as int, z1.im as int) == s * s) by (nonlinear_arith)
        requires
            z1.re == 0,
            z1.im as int == s,
    ;
    assert(nsq(z2.re as int, z2.im as int) == 2 * (s * s)) by (nonlinear_arith)
        requires
            z2.re as int == -s,
            z2.im as int == s,
    ;
    assert(nsq(z3.re as int, z3.im as int) == s * s) by (nonlinear_arith)
        requires
            z3.re == 0,
            z3.im as int == -s,
    ;
    assert((b as int) * s == 4 * (s * s)) by (nonlinear_arith)
        requires
            b as int == 4 * s,
    ;
    assert(escape_from(z0, z0, 0, 0, c, b, max_iterations, 1) == escape_from(
        z1,
        z0,
        1,
        1,
        c,
        b,
        max_iterations,
        1,
    ));
    assert(escape_from(z1, z0, 1, 1, c, b, max_iterations, 1) == escape_from(
        z2,
        z2,
        0,
        2,
        c,
        b,
        max_iterations,
        1,
    ));
    assert(escape_from(z2, z2, 0, 2, c, b, max_iterations, 1) == escape_from(
        z3,
        z2,
        1,
        3,
        c,
        b,
        max_iterations,
        1,
    ));
    assert(escape_from(z3, z2, 1, 3, c, b, max_iterations, 1) == EscapeResult::Bounded);
}

/// A render pass is a pure function of the viewport: two Smooth-mode
/// buffers rendered from the same state are byte-identical.
pub proof fn lemma_render_deterministic(m: Mandelbrot, p1: Seq<u8>, p2: Seq<u8>)
    requires
        m.wf(),
        p1.len() == m.spec_width() * m.spec_height() * 4,
        p2.len() == m.spec_width() * m.spec_height() * 4,
        forall|j: int| 0 <= j < m.spec_width() * m.spec_height() ==> m.pixel_smooth_ok(p1, j),
        forall|j: int| 0 <= j < m.spec_width() * m.spec_height() ==> m.pixel_smooth_ok(p2, j),
    ensures
        p1 == p2,
{
    let total = m.spec_width() * m.spec_height();
    assert forall|i: int| 0 <= i < p1.len() implies p1[i] == p2[i] by {
        let j = i / 4;
        let k = i % 4;
        vstd::arithmetic::div_mod::lemma_fundamental_div_mod(i, 4);
        vstd::arithmetic::div_mod::lemma_mod_bound(i, 4);
        assert(i < 4 * total);
        vstd::arithmetic::div_mod::lemma_multiply_divide_lt(i, 4, total);
        assert(m.pixel_smooth_ok(p1, j));
        assert(m.pixel_smooth_ok(p2, j));
        assert(i == 4 * j + k);
    }
    assert(p1 =~= p2);
}

/// The palette strategy hits its endpoints: progress 0 yields the first
/// control color and progress 1 the last, through the cube-root pre-warp.
pub proof fn lemma_palette_endpoints(colors: Seq<Color>)
    requires
        2 <= colors.len() <= 64,
    ensures
        palette_color(colors, 0) == colors[0],
        palette_color(colors, SCALE as int) == colors[colors.len() - 1],
{
    let s = SCALE as int;
    // progress 0: warp 0, segment 0, fraction 0
    crate::fixed::lemma_cbrt_floor_of(0 * s * s, 0);
    assert(0 * s * s == 0) by (nonlinear_arith);
    assert(cbrt_floor(0) == 0) by {
        crate::fixed::lemma_cbrt_floor_of(0, 0);
    }
    assert(0 * (colors.len() - 1) == 0) by (nonlinear_arith);
    assert(div_trunc(0, s) == 0);
    assert(lerp_color(colors[0], colors[1], 0) == colors[0]) by {
        assert(div_trunc((colors[1].r - colors[0].r) * 0, s) == 0) by {
            assert((colors[1].r - colors[0].r) * 0 == 0) by (nonlinear_arith);
        }
        assert(div_trunc((colors[1].g - colors[0].g) * 0, s) == 0) by {
            assert((colors[1].g - colors[0].g) * 0 == 0) by (nonlinear_arith);
        }
        assert(div_trunc((colors[1].b - colors[0].b) * 0, s) == 0) by {
            assert((colors[1].b - colors[0].b) * 0 == 0) by (nonlinear_arith);
        }
    }
    // progress 1: warp 1, the last control color
    assert(cbrt_floor(s * s * s) == s) by {
        assert(s * s * s < (s + 1) * (s + 1) * (s + 1)) by (nonlinear_arith)
            requires
                s > 0,
        ;
        crate::fixed::lemma_cbrt_floor_of(s * s * s, s);
    }
    let pos = s * (colors.len() - 1);
    assert(div_trunc(pos, s) == colors.len() - 1) by {
        assert(pos == (colors.len() - 1) * s) by (nonlinear_arith)
            requires
                pos == s * (colors.len() - 1),
        ;
        crate::fixed::lemma_div_trunc_multiple(colors.len() - 1, s);
    }
}

/// Zoom round trip: scaling an extent by `factor` and then by an exact
/// fixed-point reciprocal never overshoots the original extent and
/// restores it to within one truncation step of the reciprocal's size.
pub proof fn lemma_zoom_round_trip(z: i64, factor: i64, inverse: i64)
    requires
        0 < z,
        0 < factor,
        0 < inverse,
        (factor as int) * (inverse as int) == (SCALE as int) * (SCALE as int),
    ensures
        div_trunc(div_trunc(z * factor, SCALE as int) * inverse, SCALE as int) <= z,
        div_trunc(div_trunc(z * factor, SCALE as int) * inverse, SCALE as int) >= z - div_trunc(
            inverse as int,
            SCALE as int,
        ) - 1,
{
    let s = SCALE as int;
    let zf = (z as int) * (factor as int);
    assert(zf > 0) by (nonlinear_arith)
        requires
            z as int > 0,
            factor as int > 0,
            zf == (z as int) * (factor as int),
    ;
    let q1 = div_trunc(zf, s);
    crate::fixed::lemma_div_trunc_fundamental(zf, s);
    assert(q1 >= 0) by (nonlinear_arith)
        requires
            q1 * s <= zf,
            zf < q1 * s + s,
            s > 0,
            zf > 0,
    ;
    let q1i = q1 * (inverse as int);
    let q2 = div_trunc(q1i, s);
    crate::fixed::lemma_div_trunc_fundamental(q1i, s);
    assert(q1i >= 0) by (nonlinear_arith)
        requires
            q1 >= 0,
            inverse as int > 0,
            q1i == q1 * (inverse as int),
    ;
    // upper bound: q2 <= z
    assert(q1 * s * (inverse as int) <= zf * (inverse as int)) by (nonlinear_arith)
        requires
            q1 * s <= zf,
            inverse as int > 0,
    ;
    assert(zf * (inverse as int) == (z as int) * (s * s)) by (nonlinear_arith)
        requires
            zf == (z as int) * (factor as int),
            (factor as int) * (inverse as int) == s * s,
    ;
    assert(q1i <= (z as int) * s) by (nonlinear_arith)
        requires
            q1 * s * (inverse as int) <= (z as int) * (s * s),
            q1i == q1 * (inverse as int),
            s > 0,
    ;
    assert(q2 <= z) by (nonlinear_arith)
        requires
            q2 * s <= q1i,
            q1i <= (z as int) * s,
            q1i < q2 * s + s,
            s > 0,
    ;
    // lower bound: q2 >= z - inverse/SCALE - 1
    let d = div_trunc(inverse as int, s);
    crate::fixed::lemma_div_trunc_fundamental(inverse as int, s);
    assert(d >= 0) by (nonlinear_arith)
        requires
            d * s <= inverse as int,
            (inverse as int) < d * s + s,
            inverse as int > 0,
            s > 0,
    ;
    assert(q1 * s >= zf - s + 1);
    assert(q2 * s * s >= q1 * (inverse as int) * s - s * s + s) by (nonlinear_arith)
        requires
            q2 * s >= q1i - s + 1,
            q1i == q1 * (inverse as int),
            s > 0,
    ;
    assert(q1 * (inverse as int) * s >= (z as int) * (s * s) - (s - 1) * (inverse as int))
        by (nonlinear_arith)
        requires
            q1 * s >= zf - s + 1,
            inverse as int > 0,
            zf * (inverse as int) == (z as int) * (s * s),
    ;
    assert((s - 1) * (inverse as int) <= d * (s * s) + s * s) by (nonlinear_arith)
        requires
            d * s <= inverse as int,
            (inverse as int) < d * s + s,
            inverse as int > 0,
            d >= 0,
            s > 1,
    ;
    assert(q2 >= (z as int) - d - 1) by (nonlinear_arith)
        requires
            q2 * s * s >= (z as int) * (s * s) - (s - 1) * (inverse as int) - s * s + s,
            (s - 1) * (inverse as int) <= d * (s * s) + s * s,
            s > 1,
    ;
}

} // verus!
