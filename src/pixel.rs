use vstd::prelude::*;

use crate::types::{next_state, range_draw, Rand, Rgba};

verus! {

/// Hue units in a full turn: a hue is kept in hundredths of a degree.
pub const HUE_TURN: u32 = 36000;

/// Saturation and lightness are kept in units of 1/10000: `SL_SCALE` stands for 1.0.
pub const SL_SCALE: u32 = 10000;

/// A colour in hue, saturation and lightness, in fixed point.
#[derive(Clone, Copy, Debug, PartialEq, Eq, Structural)]
pub struct Hsl {
    /// Hue in hundredths of a degree.
    pub h: u32,
    /// Saturation, `SL_SCALE` being full saturation.
    pub s: u32,
    /// Lightness, `SL_SCALE` being white.
    pub l: u32,
}

impl Hsl {
    pub open spec fn valid(self) -> bool {
        self.h < HUE_TURN && self.s <= SL_SCALE && self.l <= SL_SCALE
    }
}

pub open spec fn max3(a: int, b: int, c: int) -> int {
    if a >= b && a >= c { a } else if b >= c { b } else { c }
}

pub open spec fn min3(a: int, b: int, c: int) -> int {
    if a <= b && a <= c { a } else if b <= c { b } else { c }
}

/// Hue of `(r, g, b)`, by the sector of the largest channel.
pub open spec fn hue_of(r: int, g: int, b: int) -> int {
    let cmax = max3(r, g, b);
    let delta = cmax - min3(r, g, b);
    if delta == 0 {
        0
    } else if cmax == r {
        ((36000 * delta + 6000 * (g - b)) / delta) % 36000
    } else if cmax == g {
        (12000 * delta + 6000 * (b - r)) / delta
    } else {
        (24000 * delta + 6000 * (r - g)) / delta
    }
}

/// Saturation of `(r, g, b)`, split at half lightness.
pub open spec fn saturation_of(r: int, g: int, b: int) -> int {
    let cmax = max3(r, g, b);
    let cmin = min3(r, g, b);
    let sum = cmax + cmin;
    if sum > 255 {
        if 510 - sum == 0 { 0 } else { (cmax - cmin) * 10000 / (510 - sum) }
    } else {
        if sum == 0 { 0 } else { (cmax - cmin) * 10000 / sum }
    }
}

/// Lightness of `(r, g, b)`: the mean of the largest and smallest channel,
/// rounded to the nearest unit.
pub open spec fn lightness_of(r: int, g: int, b: int) -> int {
    ((max3(r, g, b) + min3(r, g, b)) * 10000 + 255) / 510
}

pub open spec fn rgb_to_hsl(r: u8, g: u8, b: u8) -> Hsl {
    Hsl {
        h: hue_of(r as int, g as int, b as int) as u32,
        s: saturation_of(r as int, g as int, b as int) as u32,
        l: lightness_of(r as int, g as int, b as int) as u32,
    }
}

pub open spec fn min2(a: int, b: int) -> int {
    if a <= b { a } else { b }
}

pub open spec fn max2(a: int, b: int) -> int {
    if a >= b { a } else { b }
}

/// The chroma term `s * min(l, 1 - l)`, in units of 1/10^8.
pub open spec fn chroma_of(s: int, l: int) -> int {
    s * min2(l, 10000 - l)
}

/// The position `k` of channel `n` on the twelve-step hue wheel, times 3000.
pub open spec fn wheel_pos(h: int, n: int) -> int {
    (n * 3000 + h) % 36000
}

/// `max(min(k - 3, 9 - k, 1), -1)`, times 3000.
pub open spec fn ramp(k: int) -> int {
    max2(min3(k - 9000, 27000 - k, 3000), -3000)
}

/// Channel `n` (0 red, 8 green, 4 blue) of the colour `(h, s, l)`:
/// `(l - a * ramp(k)) * 255`, rounded down.
pub open spec fn channel_of(h: int, s: int, l: int, n: int) -> int {
    255 * (l * 30000000 - chroma_of(s, l) * ramp(wheel_pos(h, n))) / 300000000000
}

pub open spec fn hsl_to_rgb(h: int, s: int, l: int) -> Rgba {
    [
        channel_of(h, s, l, 0) as u8,
        channel_of(h, s, l, 8) as u8,
        channel_of(h, s, l, 4) as u8,
        1,
    ]
}

/// The two representations of a pixel agree: one is derived from the other.
pub open spec fn agrees(rgba: Rgba, hsl: Hsl) -> bool {
    hsl.valid() && (hsl == rgb_to_hsl(rgba[0], rgba[1], rgba[2])
        || rgba == hsl_to_rgb(hsl.h as int, hsl.s as int, hsl.l as int))
}

/// A colour update, given in one of the two representations.
pub enum PixelType {
    RGBA(Rgba),
    HSL(Hsl),
}

/// A colour kept in both representations at once.
#[derive(Clone, Copy, Debug)]
pub struct Pixel {
    pub rgba: Rgba,
    pub hsl: Hsl,
}

impl Pixel {
    pub open spec fn wf(self) -> bool {
        agrees(self.rgba, self.hsl)
    }
}


impl Pixel {
    /// Converts `(r, g, b)` to hue, saturation and lightness.
    pub fn rgb2hsl(r: u8, g: u8, b: u8) -> (res: Hsl)
        ensures
            res == rgb_to_hsl(r, g, b),
            res.valid(),
    {
        let cmax = max_u8(r, g, b) as u32;
        let cmin = min_u8(r, g, b) as u32;
        let (r, g, b) = (r as u32, g as u32, b as u32);
        let delta = cmax - cmin;
        let mut hue: u32 = 0;
        if delta != 0 {
            if cmax == r {
                hue = ((36000 * delta + 6000 * g - 6000 * b) / delta) % 36000;
            } else if cmax == g {
                hue = (12000 * delta + 6000 * b - 6000 * r) / delta;
                proof {
                    let (d, x) = (delta as int, 6000 * (b as int - r as int));
                    assert(12000 * d + x <= 18000 * d);
                    vstd::arithmetic::div_mod::lemma_div_is_ordered(12000 * d + x, 18000 * d, d);
                    vstd::arithmetic::div_mod::lemma_div_multiples_vanish(18000, d);
                }
            } else {
                hue = (24000 * delta + 6000 * r - 6000 * g) / delta;
                proof {
                    let (d, x) = (delta as int, 6000 * (r as int - g as int));
                    assert(24000 * d + x <= 30000 * d);
                    vstd::arithmetic::div_mod::lemma_div_is_ordered(24000 * d + x, 30000 * d, d);
                    vstd::arithmetic::div_mod::lemma_div_multiples_vanish(30000, d);
                }
            }
        }
        let sum = cmax + cmin;
        let l = (sum * 10000 + 255) / 510;
        proof {
            vstd::arithmetic::div_mod::lemma_div_is_ordered(sum * 10000 + 255int, 5100255int, 510int);
        }
        let mut sat: u32 = 0;
        if sum > 255 {
            if 510 - sum != 0 {
                sat = delta * 10000 / (510 - sum);
                proof {
                    let (d, e) = (delta as int, 510 - sum as int);
                    assert(d * 10000 <= e * 10000);
                    vstd::arithmetic::div_mod::lemma_div_is_ordered(d * 10000, e * 10000, e);
                    vstd::arithmetic::div_mod::lemma_div_multiples_vanish(10000, e);
                }
            }
        } else {
            if sum != 0 {
                sat = delta * 10000 / sum;
                proof {
                    let (d, e) = (delta as int, sum as int);
                    assert(d * 10000 <= e * 10000);
                    vstd::arithmetic::div_mod::lemma_div_is_ordered(d * 10000, e * 10000, e);
                    vstd::arithmetic::div_mod::lemma_div_multiples_vanish(10000, e);
                }
            }
        }
        Hsl { h: hue, s: sat, l }
    }
}


/// One channel of `hsl2rgb`.
fn hsl_channel(h: u32, s: u32, l: u32, n: u32) -> (r: u8)
    requires
        h < HUE_TURN,
        s <= SL_SCALE,
        l <= SL_SCALE,
        n <= 8,
    ensures
        0 <= channel_of(h as int, s as int, l as int, n as int) <= 255,
        r as int == channel_of(h as int, s as int, l as int, n as int),
{
    let half: i64 = if l <= 10000 - l { l as i64 } else { (10000 - l) as i64 };
    assert(s as i64 * half <= 10000 * half) by (nonlinear_arith)
        requires s <= 10000, half >= 0;
    let a: i64 = s as i64 * half;
    let k: i64 = ((n * 3000 + h) % 36000) as i64;
    let mut m: i64 = k - 9000;
    if 27000 - k < m {
        m = 27000 - k;
    }
    if 3000 < m {
        m = 3000;
    }
    if m < -3000 {
        m = -3000;
    }
    assert(-3000 * a <= a * m <= 3000 * a) by (nonlinear_arith)
        requires -3000 <= m <= 3000, a >= 0;
    let num: i64 = l as i64 * 30000000 - a * m;
    assert(0 <= num <= 300000000000) by (nonlinear_arith)
        requires
            num == l * 30000000 - a * m,
            -3000 * a <= a * m <= 3000 * a,
            a <= 10000 * half,
            half <= l,
            half <= 10000 - l,
            half >= 0,
    ;
    let v: i64 = 255 * num / 300000000000;
    proof {
        vstd::arithmetic::div_mod::lemma_div_is_ordered(0, 255 * num as int, 300000000000);
        vstd::arithmetic::div_mod::lemma_div_is_ordered(255 * num as int, 255 * 300000000000int, 300000000000);
        vstd::arithmetic::div_mod::lemma_div_multiples_vanish(255, 300000000000);
    }
    v as u8
}

impl Pixel {
    /// Converts hue, saturation and lightness to `(r, g, b, 1)`.
    pub fn hsl2rgb(h: u32, s: u32, l: u32) -> (res: Rgba)
        requires
            h < HUE_TURN,
            s <= SL_SCALE,
            l <= SL_SCALE,
        ensures
            res == hsl_to_rgb(h as int, s as int, l as int),
            0 <= channel_of(h as int, s as int, l as int, 0) <= 255,
            0 <= channel_of(h as int, s as int, l as int, 8) <= 255,
            0 <= channel_of(h as int, s as int, l as int, 4) <= 255,
    {
        let res: Rgba = [hsl_channel(h, s, l, 0), hsl_channel(h, s, l, 8), hsl_channel(h, s, l, 4), 1];
        assert(res =~= hsl_to_rgb(h as int, s as int, l as int));
        res
    }
}


impl Pixel {
    /// Black: `(0, 0, 0, 1)`.
    pub fn new() -> (r: Pixel)
        ensures
            r.rgba == [0u8, 0u8, 0u8, 1u8],
            r.hsl == (Hsl { h: 0, s: 0, l: 0 }),
            r.wf(),
    {
        let rgba: Rgba = [0, 0, 0, 1];
        let hsl = Pixel::rgb2hsl(rgba[0], rgba[1], rgba[2]);
        Pixel { rgba, hsl }
    }

    /// A colour whose three channels are drawn uniformly from `[0, 256)`.
    pub fn random(rng: &mut Rand) -> (r: Pixel)
        ensures
            final(rng).state == next_state(next_state(next_state(old(rng).state))),
            r.rgba[0] as int == range_draw(old(rng).state, 0, 256),
            r.rgba[1] as int == range_draw(next_state(old(rng).state), 0, 256),
            r.rgba[2] as int == range_draw(next_state(next_state(old(rng).state)), 0, 256),
            r.rgba[3] == 1,
            r.hsl == rgb_to_hsl(r.rgba[0], r.rgba[1], r.rgba[2]),
            r.wf(),
    {
        let red = rng.gen_rangei32(0, 256) as u8;
        let green = rng.gen_rangei32(0, 256) as u8;
        let blue = rng.gen_rangei32(0, 256) as u8;
        let rgba: Rgba = [red, green, blue, 1];
        let hsl = Pixel::rgb2hsl(red, green, blue);
        Pixel { rgba, hsl }
    }

    /// Stores the given representation as it is and derives the other one from it.
    pub fn set_data(&mut self, set: PixelType)
        requires
            match set {
                PixelType::HSL(v) => v.valid(),
                PixelType::RGBA(_) => true,
            },
        ensures
            final(self).wf(),
            match set {
                PixelType::RGBA(v) => final(self).rgba == v
                    && final(self).hsl == rgb_to_hsl(v[0], v[1], v[2]),
                PixelType::HSL(v) => final(self).hsl == v
                    && final(self).rgba == hsl_to_rgb(v.h as int, v.s as int, v.l as int),
            },
    {
        match set {
            PixelType::RGBA(v) => {
                self.rgba = v;
                self.hsl = Pixel::rgb2hsl(v[0], v[1], v[2]);
            },
            PixelType::HSL(v) => {
                self.hsl = v;
                self.rgba = Pixel::hsl2rgb(v.h, v.s, v.l);
            },
        }
    }
}

fn max_u8(a: u8, b: u8, c: u8) -> (r: u8)
    ensures
        r as int == max3(a as int, b as int, c as int),
{
    if a >= b && a >= c { a } else if b >= c { b } else { c }
}

fn min_u8(a: u8, b: u8, c: u8) -> (r: u8)
    ensures
        r as int == min3(a as int, b as int, c as int),
{
    if a <= b && a <= c { a } else if b <= c { b } else { c }
}

} // verus!
