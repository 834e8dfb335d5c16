//! RGB colors: hex-string parsing and formatting, and fixed-point linear
//! interpolation between two colors.

use vstd::prelude::*;

verus! {

use crate::fixed::SCALE;
use crate::fixed::div_i128;
use crate::fixed::div_trunc;
use crate::fixed::lemma_div_trunc_bounds;
use vstd::string::StrSliceExecFns;
use vstd::string::StringExecFns;

#[derive(Clone, Copy, Debug, PartialEq, Eq, Structural)]
pub struct Color {
    pub r: u8,
    pub g: u8,
    pub b: u8,
}

pub open spec fn hex_digit_value(c: char) -> int {
    if '0' <= c && c <= '9' {
        c as int - 48
    } else if 'a' <= c && c <= 'f' {
        c as int - 87
    } else if 'A' <= c && c <= 'F' {
        c as int - 55
    } else {
        -1
    }
}

pub open spec fn is_hex_digit(c: char) -> bool {
    hex_digit_value(c) >= 0
}

/// The color text with an optional leading `#` removed.
pub open spec fn stripped(s: Seq<char>) -> Seq<char> {
    if s.len() > 0 && s[0] == '#' {
        s.skip(1)
    } else {
        s
    }
}

/// A well-formed color text: an optional `#`, then exactly six hex digits
/// of either case.
pub open spec fn is_hex_color(s: Seq<char>) -> bool {
    &&& stripped(s).len() == 6
    &&& forall|i: int| 0 <= i < 6 ==> is_hex_digit(#[trigger] stripped(s)[i])
}

/// The channel value written at digit pair `i` of a stripped color text.
pub open spec fn channel_at(t: Seq<char>, i: int) -> int {
    16 * hex_digit_value(t[2 * i]) + hex_digit_value(t[2 * i + 1])
}

/// The color a well-formed color text denotes.
pub open spec fn hex_color(s: Seq<char>) -> Color {
    Color {
        r: channel_at(stripped(s), 0) as u8,
        g: channel_at(stripped(s), 1) as u8,
        b: channel_at(stripped(s), 2) as u8,
    }
}

/// The lower-case hex digit for a value in 0..16.
pub open spec fn hex_char_of(v: int) -> char {
    if v == 0 {
        '0'
    } else if v == 1 {
        '1'
    } else if v == 2 {
        '2'
    } else if v == 3 {
        '3'
    } else if v == 4 {
        '4'
    } else if v == 5 {
        '5'
    } else if v == 6 {
        '6'
    } else if v == 7 {
        '7'
    } else if v == 8 {
        '8'
    } else if v == 9 {
        '9'
    } else if v == 10 {
        'a'
    } else if v == 11 {
        'b'
    } else if v == 12 {
        'c'
    } else if v == 13 {
        'd'
    } else if v == 14 {
        'e'
    } else {
        'f'
    }
}

/// The canonical text of a color: `#` and six lower-case hex digits.
pub open spec fn hex_text(c: Color) -> Seq<char> {
    seq![
        '#',
        hex_char_of(c.r as int / 16),
        hex_char_of(c.r as int % 16),
        hex_char_of(c.g as int / 16),
        hex_char_of(c.g as int % 16),
        hex_char_of(c.b as int / 16),
        hex_char_of(c.b as int % 16),
    ]
}

/// One channel linearly carried from `a` toward `b` by `t/SCALE`.
pub open spec fn lerp_channel(a: int, b: int, t: int) -> int {
    a + div_trunc((b - a) * t, SCALE as int)
}

/// The color `t/SCALE` of the way from `c1` to `c2`, per channel.
pub open spec fn lerp_color(c1: Color, c2: Color, t: int) -> Color {
    Color {
        r: lerp_channel(c1.r as int, c2.r as int, t) as u8,
        g: lerp_channel(c1.g as int, c2.g as int, t) as u8,
        b: lerp_channel(c1.b as int, c2.b as int, t) as u8,
    }
}

/// The value of one hex digit, or 255 for any other character.
fn hex_digit(c: char) -> (r: u8)
    ensures
        is_hex_digit(c) ==> r as int == hex_digit_value(c),
        !is_hex_digit(c) ==> r == 255,
{
    if c >= '0' && c <= '9' {
        (c as u8) - 48
    } else if c >= 'a' && c <= 'f' {
        (c as u8) - 87
    } else if c >= 'A' && c <= 'F' {
        (c as u8) - 55
    } else {
        255
    }
}

/// The one-character text of a hex digit value.
fn hex_digit_str(n: u8) -> (r: &'static str)
    requires
        n < 16,
    ensures
        r@ =~= seq![hex_char_of(n as int)],
{
    proof {
        reveal_strlit("0");
        reveal_strlit("1");
        reveal_strlit("2");
        reveal_strlit("3");
        reveal_strlit("4");
        reveal_strlit("5");
        reveal_strlit("6");
        reveal_strlit("7");
        reveal_strlit("8");
        reveal_strlit("9");
        reveal_strlit("a");
        reveal_strlit("b");
        reveal_strlit("c");
        reveal_strlit("d");
        reveal_strlit("e");
        reveal_strlit("f");
    }
    match n {
        0 => "0",
        1 => "1",
        2 => "2",
        3 => "3",
        4 => "4",
        5 => "5",
        6 => "6",
        7 => "7",
        8 => "8",
        9 => "9",
        10 => "a",
        11 => "b",
        12 => "c",
        13 => "d",
        14 => "e",
        _ => "f",
    }
}

/// One channel of the interpolation, in executable form.
fn lerp_u8(a: u8, b: u8, t: i64) -> (r: u8)
    requires
        0 <= t <= SCALE,
    ensures
        r as int == lerp_channel(a as int, b as int, t as int),
{
    let d: i128 = (b as i128) - (a as i128);
    proof {
        assert(d * (t as int) <= 255 * (SCALE as int) && d * (t as int) >= -255 * (SCALE as int))
            by (nonlinear_arith)
            requires
                -255 <= d <= 255,
                0 <= t as int <= SCALE as int,
        ;
        if d >= 0 {
            assert(0 * (SCALE as int) <= d * (t as int) <= d * (SCALE as int))
                by (nonlinear_arith)
                requires
                    d >= 0,
                    0 <= t as int <= SCALE as int,
            ;
            lemma_div_trunc_bounds(d * (t as int), SCALE as int, 0, d as int);
        } else {
            assert(d * (SCALE as int) <= d * (t as int) <= 0 * (SCALE as int))
                by (nonlinear_arith)
                requires
                    d < 0,
                    0 <= t as int <= SCALE as int,
            ;
            lemma_div_trunc_bounds(d * (t as int), SCALE as int, d as int, 0);
        }
    }
    let q: i128 = div_i128(d * (t as i128), SCALE as i128);
    ((a as i128) + q) as u8
}

/// A hue (degrees, fixed point, `0 ..= 360*SCALE`), saturation and value
/// (both `0 ..= SCALE`) triple.
#[derive(Clone, Copy, Debug, PartialEq, Eq, Structural)]
pub struct HSV {
    pub hue: i64,
    pub saturation: i64,
    pub value: i64,
}

pub open spec fn max3(a: int, b: int, c: int) -> int {
    if a >= b && a >= c {
        a
    } else if b >= c {
        b
    } else {
        c
    }
}

pub open spec fn min3(a: int, b: int, c: int) -> int {
    if a <= b && a <= c {
        a
    } else if b <= c {
        b
    } else {
        c
    }
}

/// The hue/saturation/value triple of a color, in fixed point; the hue
/// sector comes from whichever channel is largest.
pub open spec fn to_hsv_spec(c: Color) -> HSV {
    let s = SCALE as int;
    let rf = div_trunc(c.r as int * s, 255);
    let gf = div_trunc(c.g as int * s, 255);
    let bf = div_trunc(c.b as int * s, 255);
    let mx = max3(rf, gf, bf);
    let mn = min3(rf, gf, bf);
    let h0 = if mx == mn {
        0
    } else if mx == rf {
        60 * div_trunc((gf - bf) * s, mx - mn)
    } else if mx == gf {
        60 * (2 * s + div_trunc((bf - rf) * s, mx - mn))
    } else {
        60 * (4 * s + div_trunc((rf - gf) * s, mx - mn))
    };
    let h = if h0 < 0 {
        h0 + 360 * s
    } else {
        h0
    };
    let sat = if mx == 0 {
        0
    } else {
        div_trunc((mx - mn) * s, mx)
    };
    HSV { hue: h as i64, saturation: sat as i64, value: mx as i64 }
}

/// One RGB channel of an HSV triple: `n` is 5 for red, 3 for green, 1
/// for blue.
pub open spec fn hsv_channel(hsv: HSV, n: int) -> int {
    let s = SCALE as int;
    let k0 = n * s + div_trunc(hsv.hue as int, 60);
    let k = if k0 >= 6 * s {
        k0 - 6 * s
    } else {
        k0
    };
    let m = min3(k, 4 * s - k, s);
    let m0 = if m >= 0 {
        m
    } else {
        0
    };
    hsv.value - div_trunc(div_trunc(hsv.value as int * hsv.saturation, s) * m0, s)
}

/// The color of an HSV triple, one hue sector at a time.
pub open spec fn to_rgb_spec(hsv: HSV) -> Color {
    let s = SCALE as int;
    Color {
        r: div_trunc(hsv_channel(hsv, 5) * 255, s) as u8,
        g: div_trunc(hsv_channel(hsv, 3) * 255, s) as u8,
        b: div_trunc(hsv_channel(hsv, 1) * 255, s) as u8,
    }
}

/// Whether an HSV triple is in range: hue within a turn, saturation and
/// value within `[0, SCALE]`.
pub open spec fn hsv_in_range(hsv: HSV) -> bool {
    &&& 0 <= hsv.hue <= 360 * (SCALE as int)
    &&& 0 <= hsv.saturation <= SCALE
    &&& 0 <= hsv.value <= SCALE
}

fn max3_exec(a: i64, b: i64, c: i64) -> (r: i64)
    ensures
        r == max3(a as int, b as int, c as int),
{
    if a >= b && a >= c {
        a
    } else if b >= c {
        b
    } else {
        c
    }
}

fn min3_exec(a: i64, b: i64, c: i64) -> (r: i64)
    ensures
        r == min3(a as int, b as int, c as int),
{
    if a <= b && a <= c {
        a
    } else if b <= c {
        b
    } else {
        c
    }
}

/// One RGB channel of an in-range HSV triple.
fn hsv_channel_exec(hsv: &HSV, n: i64) -> (r: i64)
    requires
        hsv_in_range(*hsv),
        n == 5 || n == 3 || n == 1,
    ensures
        r == hsv_channel(*hsv, n as int),
        0 <= r <= SCALE,
{
    proof {
        assert(360 * (SCALE as int) == 60 * (6 * (SCALE as int))) by (nonlinear_arith);
        lemma_div_trunc_bounds(hsv.hue as int, 60, 0, 6 * (SCALE as int));
    }
    let h60 = div_i128(hsv.hue as i128, 60) as i64;
    let k0 = n * SCALE + h60;
    let k = if k0 >= 6 * SCALE {
        k0 - 6 * SCALE
    } else {
        k0
    };
    let m = min3_exec(k, 4 * SCALE - k, SCALE);
    let m0 = if m >= 0 {
        m
    } else {
        0
    };
    proof {
        assert(0 * (SCALE as int) <= (hsv.value as int) * (hsv.saturation as int) <= (
        hsv.value as int) * (SCALE as int)) by (nonlinear_arith)
            requires
                0 <= hsv.value as int,
                0 <= hsv.saturation as int <= SCALE as int,
        ;
        lemma_div_trunc_bounds(
            (hsv.value as int) * (hsv.saturation as int),
            SCALE as int,
            0,
            hsv.value as int,
        );
    }
    let vs = div_i128((hsv.value as i128) * (hsv.saturation as i128), SCALE as i128) as i64;
    proof {
        assert(0 * (SCALE as int) <= (vs as int) * (m0 as int) <= (vs as int) * (SCALE as int))
            by (nonlinear_arith)
            requires
                0 <= vs as int,
                0 <= m0 as int <= SCALE as int,
        ;
        lemma_div_trunc_bounds((vs as int) * (m0 as int), SCALE as int, 0, vs as int);
    }
    let sub = div_i128((vs as i128) * (m0 as i128), SCALE as i128) as i64;
    hsv.value - sub
}

impl Color {
    pub fn new(r: u8, g: u8, b: u8) -> (c: Color)
        ensures
            c == (Color { r, g, b }),
    {
        Color { r, g, b }
    }

    /// Parses `#RRGGBB` (the `#` optional, digits of either case); any
    /// other text yields `None`.
    pub fn from_hex(hex: &str) -> (r: Option<Color>)
        ensures
            r is Some <==> is_hex_color(hex@),
            is_hex_color(hex@) ==> r == Some(hex_color(hex@)),
    {
        let n = hex.unicode_len();
        if n != 6 && n != 7 {
            return None;
        }
        let off: usize = if hex.get_char(0) == '#' {
            1
        } else {
            0
        };
        if n - off != 6 {
            return None;
        }
        proof {
            assert(stripped(hex@) =~= hex@.skip(off as int));
            assert(forall|i: int| 0 <= i < 6 ==> #[trigger] stripped(hex@)[i] == hex@[off as int
                + i]);
        }
        let d0 = hex_digit(hex.get_char(off));
        let d1 = hex_digit(hex.get_char(off + 1));
        let d2 = hex_digit(hex.get_char(off + 2));
        let d3 = hex_digit(hex.get_char(off + 3));
        let d4 = hex_digit(hex.get_char(off + 4));
        let d5 = hex_digit(hex.get_char(off + 5));
        if d0 == 255 || d1 == 255 || d2 == 255 || d3 == 255 || d4 == 255 || d5 == 255 {
            proof {
                if d0 == 255 {
                    assert(!is_hex_digit(stripped(hex@)[0]));
                } else if d1 == 255 {
                    assert(!is_hex_digit(stripped(hex@)[1]));
                } else if d2 == 255 {
                    assert(!is_hex_digit(stripped(hex@)[2]));
                } else if d3 == 255 {
                    assert(!is_hex_digit(stripped(hex@)[3]));
                } else if d4 == 255 {
                    assert(!is_hex_digit(stripped(hex@)[4]));
                } else {
                    assert(!is_hex_digit(stripped(hex@)[5]));
                }
            }
            return None;
        }
        proof {
            assert forall|i: int| 0 <= i < 6 implies is_hex_digit(
                #[trigger] stripped(hex@)[i],
            ) by {
                assert(is_hex_digit(stripped(hex@)[0]));
                assert(is_hex_digit(stripped(hex@)[1]));
                assert(is_hex_digit(stripped(hex@)[2]));
                assert(is_hex_digit(stripped(hex@)[3]));
                assert(is_hex_digit(stripped(hex@)[4]));
                assert(is_hex_digit(stripped(hex@)[5]));
            }
        }
        Some(
            Color {
                r: 16 * d0 + d1,
                g: 16 * d2 + d3,
                b: 16 * d4 + d5,
            },
        )
    }

    /// Writes the color as `#` and six lower-case hex digits.
    pub fn to_hex(&self) -> (r: String)
        ensures
            r@ == hex_text(*self),
    {
        proof {
            reveal_strlit("#");
        }
        let mut s = String::new();
        s.append("#");
        s.append(hex_digit_str(self.r / 16));
        s.append(hex_digit_str(self.r % 16));
        s.append(hex_digit_str(self.g / 16));
        s.append(hex_digit_str(self.g % 16));
        s.append(hex_digit_str(self.b / 16));
        s.append(hex_digit_str(self.b % 16));
        proof {
            assert(s@ =~= hex_text(*self));
        }
        s
    }

    /// The hue/saturation/value triple of this color.
    pub fn to_hsv(color: &Color) -> (r: HSV)
        ensures
            r == to_hsv_spec(*color),
            hsv_in_range(r),
    {
        let s: i64 = SCALE;
        proof {
            assert(0 * 255 <= (color.r as int) * (s as int) <= (s as int) * 255)
                by (nonlinear_arith)
                requires
                    0 <= color.r as int <= 255,
                    s as int > 0,
            ;
            assert(0 * 255 <= (color.g as int) * (s as int) <= (s as int) * 255)
                by (nonlinear_arith)
                requires
                    0 <= color.g as int <= 255,
                    s as int > 0,
            ;
            assert(0 * 255 <= (color.b as int) * (s as int) <= (s as int) * 255)
                by (nonlinear_arith)
                requires
                    0 <= color.b as int <= 255,
                    s as int > 0,
            ;
            lemma_div_trunc_bounds((color.r as int) * (s as int), 255, 0, s as int);
            lemma_div_trunc_bounds((color.g as int) * (s as int), 255, 0, s as int);
            lemma_div_trunc_bounds((color.b as int) * (s as int), 255, 0, s as int);
        }
        let rf = div_i128((color.r as i128) * (s as i128), 255) as i64;
        let gf = div_i128((color.g as i128) * (s as i128), 255) as i64;
        let bf = div_i128((color.b as i128) * (s as i128), 255) as i64;
        let mx = max3_exec(rf, gf, bf);
        let mn = min3_exec(rf, gf, bf);
        let h0: i64 = if mx == mn {
            0
        } else if mx == rf {
            proof {
                assert(-(s as int) * (mx - mn) <= (gf - bf) * (s as int) <= (s as int) * (mx
                    - mn)) by (nonlinear_arith)
                    requires
                        mn <= gf <= mx,
                        mn <= bf <= mx,
                        mn < mx,
                        s as int > 0,
                ;
                lemma_div_trunc_bounds(
                    (gf - bf) * (s as int),
                    mx as int - mn as int,
                    -(s as int),
                    s as int,
                );
            }
            60 * (div_i128((gf as i128 - bf as i128) * (s as i128), mx as i128 - mn as i128)
                as i64)
        } else if mx == gf {
            proof {
                assert(-(s as int) * (mx - mn) <= (bf - rf) * (s as int) <= (s as int) * (mx
                    - mn)) by (nonlinear_arith)
                    requires
                        mn <= bf <= mx,
                        mn <= rf <= mx,
                        mn < mx,
                        s as int > 0,
                ;
                lemma_div_trunc_bounds(
                    (bf - rf) * (s as int),
                    mx as int - mn as int,
                    -(s as int),
                    s as int,
                );
            }
            60 * (2 * s + div_i128(
                (bf as i128 - rf as i128) * (s as i128),
                mx as i128 - mn as i128,
            ) as i64)
        } else {
            proof {
                assert(-(s as int) * (mx - mn) <= (rf - gf) * (s as int) <= (s as int) * (mx
                    - mn)) by (nonlinear_arith)
                    requires
                        mn <= rf <= mx,
                        mn <= gf <= mx,
                        mn < mx,
                        s as int > 0,
                ;
                lemma_div_trunc_bounds(
                    (rf - gf) * (s as int),
                    mx as int - mn as int,
                    -(s as int),
                    s as int,
                );
            }
            60 * (4 * s + div_i128(
                (rf as i128 - gf as i128) * (s as i128),
                mx as i128 - mn as i128,
            ) as i64)
        };
        let h: i64 = if h0 < 0 {
            h0 + 360 * s
        } else {
            h0
        };
        let sat: i64 = if mx == 0 {
            0
        } else {
            proof {
                assert(0 * (mx as int) <= (mx - mn) * (s as int) <= (s as int) * (mx as int))
                    by (nonlinear_arith)
                    requires
                        0 <= mn <= mx,
                        0 < mx,
                        s as int > 0,
                ;
                lemma_div_trunc_bounds((mx - mn) * (s as int), mx as int, 0, s as int);
            }
            div_i128((mx as i128 - mn as i128) * (s as i128), mx as i128) as i64
        };
        HSV { hue: h, saturation: sat, value: mx }
    }

    /// The color of an HSV triple.
    pub fn to_rgb(hsv: &HSV) -> (r: Color)
        requires
            hsv_in_range(*hsv),
        ensures
            r == to_rgb_spec(*hsv),
    {
        let cr = hsv_channel_exec(hsv, 5);
        let cg = hsv_channel_exec(hsv, 3);
        let cb = hsv_channel_exec(hsv, 1);
        proof {
            assert(0 * (SCALE as int) <= (cr as int) * 255 <= 255 * (SCALE as int))
                by (nonlinear_arith)
                requires
                    0 <= cr as int <= SCALE as int,
            ;
            assert(0 * (SCALE as int) <= (cg as int) * 255 <= 255 * (SCALE as int))
                by (nonlinear_arith)
                requires
                    0 <= cg as int <= SCALE as int,
            ;
            assert(0 * (SCALE as int) <= (cb as int) * 255 <= 255 * (SCALE as int))
                by (nonlinear_arith)
                requires
                    0 <= cb as int <= SCALE as int,
            ;
            lemma_div_trunc_bounds((cr as int) * 255, SCALE as int, 0, 255);
            lemma_div_trunc_bounds((cg as int) * 255, SCALE as int, 0, 255);
            lemma_div_trunc_bounds((cb as int) * 255, SCALE as int, 0, 255);
        }
        Color {
            r: div_i128((cr as i128) * 255, SCALE as i128) as u8,
            g: div_i128((cg as i128) * 255, SCALE as i128) as u8,
            b: div_i128((cb as i128) * 255, SCALE as i128) as u8,
        }
    }

    /// The color `value/SCALE` of the way from `color1` to `color2`.
    pub fn lerp(color1: &Color, color2: &Color, value: i64) -> (r: Color)
        requires
            0 <= value <= SCALE,
        ensures
            r == lerp_color(*color1, *color2, value as int),
    {
        Color {
            r: lerp_u8(color1.r, color2.r, value),
            g: lerp_u8(color1.g, color2.g, value),
            b: lerp_u8(color1.b, color2.b, value),
        }
    }
}

} // verus!
