//! Colors as fixed-point channel intensities.
//!
//! A channel value `c` stands for the real intensity `c / FULL`, so `0` is
//! off and `FULL` is full intensity.
use vstd::prelude::*;

use crate::random::random_below;

verus! {

/// Full intensity of one channel. A multiple of 6, so the six hue sectors
/// start on whole units, and of 1000, so three-digit decimals are exact.
pub const FULL: u32 = 6000;

/// `v` clamped into `[0, FULL]`.
pub open spec fn clamp_unit(v: int) -> int {
    if v < 0 {
        0
    } else if v > FULL {
        FULL as int
    } else {
        v
    }
}

/// For `0 <= b <= k`, scaling `a` by `b / k` does not make it larger.
pub proof fn lemma_scaled_le(a: int, b: int, k: int)
    requires
        0 <= a,
        0 <= b <= k,
        0 < k,
    ensures
        0 <= a * b / k <= a,
{
    assert(0 <= a * b <= a * k) by (nonlinear_arith)
        requires
            0 <= a,
            0 <= b <= k,
    ;
    vstd::arithmetic::div_mod::lemma_div_is_ordered(a * b, a * k, k);
    vstd::arithmetic::div_mod::lemma_div_multiples_vanish(a, k);
    assert(k * a == a * k) by (nonlinear_arith);
    vstd::arithmetic::div_mod::lemma_div_pos_is_pos(a * b, k);
}

/// A color with red, green and blue channels.
#[derive(Clone, Copy, Debug, PartialEq, Eq, Structural)]
pub struct Color {
    pub r: u32,
    pub g: u32,
    pub b: u32,
}

impl Color {
    /// Every channel lies in `[0, FULL]`.
    pub open spec fn in_range(self) -> bool {
        self.r <= FULL && self.g <= FULL && self.b <= FULL
    }

    /// The color with each channel multiplied by `factor / FULL`, then clamped.
    pub open spec fn scaled(self, factor: int) -> Color {
        Color {
            r: clamp_unit(self.r * factor / FULL as int) as u32,
            g: clamp_unit(self.g * factor / FULL as int) as u32,
            b: clamp_unit(self.b * factor / FULL as int) as u32,
        }
    }

    /// The color with `delta` taken from each channel, then clamped.
    pub open spec fn subtracted(self, delta: int) -> Color {
        Color {
            r: clamp_unit(self.r - delta) as u32,
            g: clamp_unit(self.g - delta) as u32,
            b: clamp_unit(self.b - delta) as u32,
        }
    }

    /// Perceptual brightness `0.3 r + 0.59 g + 0.11 b`, in channel units,
    /// rounded down.
    pub open spec fn brightness(self) -> int {
        (30 * self.r + 59 * self.g + 11 * self.b) / 100
    }

    /// The blend that goes from `self` at `t == 0` to `other` at `t == FULL`;
    /// `t` is clamped into `[0, FULL]` first, the channels after.
    pub open spec fn blend(self, other: Color, t: int) -> Color {
        let t = clamp_unit(t);
        Color {
            r: clamp_unit((self.r * (FULL - t) + other.r * t) / FULL as int) as u32,
            g: clamp_unit((self.g * (FULL - t) + other.g * t) / FULL as int) as u32,
            b: clamp_unit((self.b * (FULL - t) + other.b * t) / FULL as int) as u32,
        }
    }

    pub fn black() -> (c: Color)
        ensures
            c == (Color { r: 0, g: 0, b: 0 }),
    {
        Color { r: 0, g: 0, b: 0 }
    }

    pub fn white() -> (c: Color)
        ensures
            c == (Color { r: FULL, g: FULL, b: FULL }),
    {
        Color { r: FULL, g: FULL, b: FULL }
    }

    /// Multiplies every channel by `factor / FULL` and clamps it into `[0, FULL]`.
    pub fn scale(&mut self, factor: u32)
        ensures
            *final(self) == old(self).scaled(factor as int),
            final(self).in_range(),
    {
        self.r = scale_channel(self.r, factor);
        self.g = scale_channel(self.g, factor);
        self.b = scale_channel(self.b, factor);
    }

    /// Takes `delta` from every channel and clamps it into `[0, FULL]`.
    pub fn subtract(&mut self, delta: u32)
        ensures
            *final(self) == old(self).subtracted(delta as int),
            final(self).in_range(),
    {
        self.r = clamp_channel(self.r as i64 - delta as i64);
        self.g = clamp_channel(self.g as i64 - delta as i64);
        self.b = clamp_channel(self.b as i64 - delta as i64);
    }

    /// Perceptual brightness of the color, in channel units.
    pub fn luminance(&self) -> (l: u32)
        ensures
            l == self.brightness(),
    {
        let sum: u64 = 30 * self.r as u64 + 59 * self.g as u64 + 11 * self.b as u64;
        proof {
            let m: int = if self.r >= self.g && self.r >= self.b {
                self.r as int
            } else if self.g >= self.b {
                self.g as int
            } else {
                self.b as int
            };
            assert(sum <= 100 * m);
            vstd::arithmetic::div_mod::lemma_div_is_ordered(sum as int, 100 * m, 100);
            vstd::arithmetic::div_mod::lemma_div_multiples_vanish(m, 100);
        }
        (sum / 100) as u32
    }

    /// Linear blend from `self` (at `t == 0`) to `other` (at `t == FULL`).
    pub fn interpolate(&self, other: &Color, t: u32) -> (c: Color)
        ensures
            c == self.blend(*other, t as int),
            c.in_range(),
    {
        let t = if t > FULL {
            FULL
        } else {
            t
        };
        Color {
            r: blend_channel(self.r, other.r, t),
            g: blend_channel(self.g, other.g, t),
            b: blend_channel(self.b, other.b, t),
        }
    }
}

proof fn lemma_u32_product(a: u32, b: u32)
    ensures
        0 <= a * b <= 0xffff_ffff * 0xffff_ffff,
{
    assert(0 <= a * b <= 0xffff_ffff * 0xffff_ffff) by (nonlinear_arith)
        requires
            a <= 0xffff_ffffu32,
            b <= 0xffff_ffffu32,
    ;
}

fn clamp_channel(v: i64) -> (c: u32)
    ensures
        c == clamp_unit(v as int),
{
    if v < 0 {
        0
    } else if v > FULL as i64 {
        FULL
    } else {
        v as u32
    }
}

fn scale_channel(c: u32, factor: u32) -> (r: u32)
    ensures
        r == clamp_unit(c * factor / FULL as int),
{
    proof {
        lemma_u32_product(c, factor);
    }
    let p: u64 = c as u64 * factor as u64;
    let q: u64 = p / FULL as u64;
    if q > FULL as u64 {
        FULL
    } else {
        q as u32
    }
}

fn blend_channel(a: u32, b: u32, t: u32) -> (r: u32)
    requires
        t <= FULL,
    ensures
        r == clamp_unit((a * (FULL - t) + b * t) / FULL as int),
{
    proof {
        lemma_u32_product(a, (FULL - t) as u32);
        lemma_u32_product(b, t);
        assert(a * (FULL - t) <= a * FULL) by (nonlinear_arith)
            requires
                t <= FULL,
        ;
        assert(b * t <= b * FULL) by (nonlinear_arith)
            requires
                t <= FULL,
        ;
    }
    let wa: u64 = a as u64 * (FULL - t) as u64;
    let wb: u64 = b as u64 * t as u64;
    let q: u64 = (wa + wb) / FULL as u64;
    if q > FULL as u64 {
        FULL
    } else {
        q as u32
    }
}

/// A color given by hue, saturation and value, each in `[0, FULL]`.
#[derive(Clone, Copy, Debug, PartialEq, Eq, Structural)]
pub struct HSVColor {
    pub h: u32,
    pub s: u32,
    pub v: u32,
}

impl HSVColor {
    /// Every component lies in `[0, FULL]`.
    pub open spec fn in_range(self) -> bool {
        self.h <= FULL && self.s <= FULL && self.v <= FULL
    }

    /// The six-sector conversion to RGB: the sector is `floor(6 h / FULL) mod 6`
    /// (the hue itself is not reduced first).
    /// Saturation and value are clamped into `[0, FULL]`.
    pub open spec fn to_rgb(self) -> Color {
        let s = clamp_unit(self.s as int);
        let v = clamp_unit(self.v as int);
        let sector = (self.h * 6 / FULL as int) % 6;
        let f = self.h * 6 % FULL as int;
        let p = (v * (FULL - s) / FULL as int) as u32;
        let q = (v * (FULL - s * f / FULL as int) / FULL as int) as u32;
        let t = (v * (FULL - s * (FULL - f) / FULL as int) / FULL as int) as u32;
        let v = v as u32;
        if sector == 1 {
            Color { r: q, g: v, b: p }
        } else if sector == 2 {
            Color { r: p, g: v, b: t }
        } else if sector == 3 {
            Color { r: p, g: q, b: v }
        } else if sector == 4 {
            Color { r: t, g: p, b: v }
        } else if sector == 5 {
            Color { r: v, g: p, b: q }
        } else {
            Color { r: v, g: t, b: p }
        }
    }

    /// A fully saturated, full-value color of random hue in `[0, FULL)`.
    pub fn random_hue() -> (c: HSVColor)
        ensures
            c.h < FULL,
            c.s == FULL,
            c.v == FULL,
    {
        HSVColor { h: random_below(FULL), s: FULL, v: FULL }
    }

    /// The RGB color of this HSV color, as `to_rgb` states it.
    pub fn to_color(&self) -> (c: Color)
        ensures
            c == self.to_rgb(),
            c.in_range(),
    {
        let s: u64 = if self.s > FULL {
            FULL as u64
        } else {
            self.s as u64
        };
        let v: u64 = if self.v > FULL {
            FULL as u64
        } else {
            self.v as u64
        };
        let full: u64 = FULL as u64;
        let h6: u64 = self.h as u64 * 6;
        let sector: u64 = h6 / full % 6;
        let f: u64 = h6 % full;
        proof {
            lemma_scaled_le(v as int, (FULL - s) as int, FULL as int);
            lemma_scaled_le(s as int, f as int, FULL as int);
            lemma_scaled_le(s as int, (FULL - f) as int, FULL as int);
        }
        let sf: u64 = s * f / full;
        let sg: u64 = s * (full - f) / full;
        proof {
            lemma_scaled_le(v as int, (FULL - sf) as int, FULL as int);
            lemma_scaled_le(v as int, (FULL - sg) as int, FULL as int);
        }
        let p: u32 = (v * (full - s) / full) as u32;
        let q: u32 = (v * (full - sf) / full) as u32;
        let t: u32 = (v * (full - sg) / full) as u32;
        let v: u32 = v as u32;
        if sector == 1 {
            Color { r: q, g: v, b: p }
        } else if sector == 2 {
            Color { r: p, g: v, b: t }
        } else if sector == 3 {
            Color { r: p, g: q, b: v }
        } else if sector == 4 {
            Color { r: t, g: p, b: v }
        } else if sector == 5 {
            Color { r: v, g: p, b: q }
        } else {
            Color { r: v, g: t, b: p }
        }
    }
}

impl From<HSVColor> for Color {
    fn from(hsv: HSVColor) -> Color {
        hsv.to_color()
    }
}

impl vstd::std_specs::convert::FromSpecImpl<HSVColor> for Color {
    open spec fn obeys_from_spec() -> bool {
        true
    }

    open spec fn from_spec(hsv: HSVColor) -> Color {
        hsv.to_rgb()
    }
}

/// Every HSV color converts to a color whose channels lie in `[0, FULL]`;
/// at full saturation and value, hue 0 is pure red, a third is pure green and
/// two thirds are pure blue.
pub proof fn lemma_hsv_conversion(c: HSVColor)
    ensures
        c.to_rgb().in_range(),
        (HSVColor { h: 0, s: FULL, v: FULL }).to_rgb() == (Color { r: FULL, g: 0, b: 0 }),
        (HSVColor { h: FULL / 3, s: FULL, v: FULL }).to_rgb() == (Color { r: 0, g: FULL, b: 0 }),
        (HSVColor { h: (2 * FULL / 3) as u32, s: FULL, v: FULL }).to_rgb() == (Color { r: 0, g: 0, b: FULL }),
{
    let s = clamp_unit(c.s as int);
    let v = clamp_unit(c.v as int);
    let f = c.h * 6 % FULL as int;
    lemma_scaled_le(v, FULL - s, FULL as int);
    lemma_scaled_le(s, f, FULL as int);
    lemma_scaled_le(s, FULL - f, FULL as int);
    lemma_scaled_le(v, FULL - s * f / FULL as int, FULL as int);
    lemma_scaled_le(v, FULL - s * (FULL - f) / FULL as int, FULL as int);
    lemma_primary(0, 0);
    lemma_primary(2000, 2);
    lemma_primary(4000, 4);
}

proof fn lemma_primary(h: u32, sector: int)
    requires
        h * 6 == FULL * sector,
        0 <= sector <= 4,
    ensures
        (h * 6 / FULL as int) % 6 == sector,
        h * 6 % FULL as int == 0,
        FULL * (FULL - FULL) / FULL as int == 0,
        FULL * (FULL - FULL * 0 / FULL as int) / FULL as int == FULL,
        FULL * (FULL - FULL * (FULL - 0) / FULL as int) / FULL as int == 0,
{
    vstd::arithmetic::div_mod::lemma_div_multiples_vanish(sector, FULL as int);
    vstd::arithmetic::div_mod::lemma_mod_multiples_basic(sector, FULL as int);
    assert(sector * FULL == FULL * sector) by (nonlinear_arith);
}

/// Scaling by any factor gives channels in `[0, FULL]`; scaling by 0 gives
/// black, and scaling an in-range color by `FULL` (the factor one) keeps it.
pub proof fn lemma_scale_bounds(c: Color, factor: int)
    requires
        factor >= 0,
    ensures
        c.scaled(factor).in_range(),
        c.scaled(0) == (Color { r: 0, g: 0, b: 0 }),
        c.in_range() ==> c.scaled(FULL as int) == c,
{
    vstd::arithmetic::div_mod::lemma_div_multiples_vanish(c.r as int, FULL as int);
    vstd::arithmetic::div_mod::lemma_div_multiples_vanish(c.g as int, FULL as int);
    vstd::arithmetic::div_mod::lemma_div_multiples_vanish(c.b as int, FULL as int);
    assert(c.r * FULL == FULL * c.r && c.g * FULL == FULL * c.g && c.b * FULL == FULL * c.b)
        by (nonlinear_arith);
}

proof fn lemma_scaled_channel_monotonic(c: int, f1: int, f2: int)
    requires
        0 <= c,
        0 <= f1 <= f2,
    ensures
        clamp_unit(c * f1 / FULL as int) <= clamp_unit(c * f2 / FULL as int),
{
    assert(c * f1 <= c * f2) by (nonlinear_arith)
        requires
            0 <= c,
            f1 <= f2,
    ;
    vstd::arithmetic::div_mod::lemma_div_is_ordered(c * f1, c * f2, FULL as int);
}

/// Luminance does not decrease as the scaling factor grows.
pub proof fn lemma_luminance_monotonic_in_scale(c: Color, f1: int, f2: int)
    requires
        0 <= f1 <= f2,
    ensures
        c.scaled(f1).brightness() <= c.scaled(f2).brightness(),
{
    lemma_scaled_channel_monotonic(c.r as int, f1, f2);
    lemma_scaled_channel_monotonic(c.g as int, f1, f2);
    lemma_scaled_channel_monotonic(c.b as int, f1, f2);
    let a = c.scaled(f1);
    let b = c.scaled(f2);
    vstd::arithmetic::div_mod::lemma_div_is_ordered(
        30 * a.r + 59 * a.g + 11 * a.b,
        30 * b.r + 59 * b.g + 11 * b.b,
        100,
    );
}

/// Blending in-range colors at `t == 0` gives the first, at `t == FULL` the second.
pub proof fn lemma_blend_ends(a: Color, b: Color)
    requires
        a.in_range(),
        b.in_range(),
    ensures
        a.blend(b, 0) == a,
        a.blend(b, FULL as int) == b,
{
    vstd::arithmetic::div_mod::lemma_div_multiples_vanish(a.r as int, FULL as int);
    vstd::arithmetic::div_mod::lemma_div_multiples_vanish(a.g as int, FULL as int);
    vstd::arithmetic::div_mod::lemma_div_multiples_vanish(a.b as int, FULL as int);
    vstd::arithmetic::div_mod::lemma_div_multiples_vanish(b.r as int, FULL as int);
    vstd::arithmetic::div_mod::lemma_div_multiples_vanish(b.g as int, FULL as int);
    vstd::arithmetic::div_mod::lemma_div_multiples_vanish(b.b as int, FULL as int);
    assert(a.r * FULL == FULL * a.r && a.g * FULL == FULL * a.g && a.b * FULL == FULL * a.b)
        by (nonlinear_arith);
    assert(b.r * FULL == FULL * b.r && b.g * FULL == FULL * b.g && b.b * FULL == FULL * b.b)
        by (nonlinear_arith);
    assert(a.r * 0 == 0 && a.g * 0 == 0 && a.b * 0 == 0 && b.r * 0 == 0 && b.g * 0 == 0 && b.b * 0
        == 0) by (nonlinear_arith);
    assert(a.blend(b, 0) == a);
    assert(a.blend(b, FULL as int) == b);
}

} // verus!
