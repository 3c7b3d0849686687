//! Bilinear sampling of pixel planes.
use vstd::prelude::*;

use crate::closure;
use crate::closure::clamp;
use crate::double;
use crate::double::Double;
use crate::edge::Point;
use crate::integral;
use crate::plane;

verus! {

/// The bits of 1.0.
pub const ONE: u64 = 0x3ff0_0000_0000_0000;

/// Four neighbouring values weighted by where a point lies between them.
pub open spec fn blended(
    nw: Double,
    ne: Double,
    sw: Double,
    se: Double,
    fx: Double,
    fy: Double,
) -> Double {
    let one = Double { bits: ONE };
    nw * (one - fx) * (one - fy) + ne * fx * (one - fy) + sw * (one - fx) * fy + se * fx * fy
}

/// The column or row after `i`, or `i` itself where it is the last of `n`.
pub open spec fn following(i: int, n: int) -> int {
    if i + 1 < n {
        i + 1
    } else {
        n - 1
    }
}

/// A byte of a plane of `channels` bytes per pixel, as a double.
pub open spec fn byte_at(
    data: Seq<u8>,
    w: int,
    channels: int,
    channel: int,
    x: int,
    y: int,
) -> Double {
    double::whole(data[plane::index_of(w, x, y) * channels + channel] as int)
}

/// The value at a point of the frame, interpolated between the four pixels
/// around it.
pub open spec fn interpolated(
    data: Seq<u8>,
    w: int,
    h: int,
    channels: int,
    channel: int,
    x: Double,
    y: Double,
) -> Double {
    let (x0, y0) = (integral::truncated(x), integral::truncated(y));
    let (x1, y1) = (following(x0, w), following(y0, h));
    blended(
        byte_at(data, w, channels, channel, x0, y0),
        byte_at(data, w, channels, channel, x1, y0),
        byte_at(data, w, channels, channel, x0, y1),
        byte_at(data, w, channels, channel, x1, y1),
        x - double::whole(x0),
        y - double::whole(y0),
    )
}

/// A coordinate kept in a frame side of `n` px.
pub open spec fn kept_inside(v: Double, n: int) -> Double {
    closure::clamped(v, Double { bits: 0 }, double::whole(n - 1))
}

/// Luma at a point, or at the nearest point of the frame.
pub open spec fn luma_at(gray: Seq<u8>, w: int, h: int, x: Double, y: Double) -> Double {
    interpolated(gray, w, h, 1, 0, kept_inside(x, w), kept_inside(y, h))
}

/// A coordinate between 0 and `n` - 1, or not a number, is on pixel 0 to `n` - 1.
proof fn lemma_truncated_inside(v: Double, n: int)
    requires
        0 < n < 0x20_0000_0000_0000,
        !v.less(Double { bits: 0 }),
        !double::whole(n - 1).less(v),
        double::is_whole(double::whole(n - 1), n - 1),
    ensures
        0 <= integral::truncated(v) < n,
{
    let unit = vstd::arithmetic::power2::pow2(1074) as int;
    vstd::arithmetic::power2::lemma_pow2_pos(1074);
    assert((Double { bits: 0 }).value() == 0) by {
        assert(crate::magnitude::units(0) == 0) by (nonlinear_arith);
    }
    if !v.nan() {
        let units = crate::magnitude::units(v.magnitude());
        crate::magnitude::lemma_units_nonnegative(v.magnitude());
        assert(v.value() >= 0);
        assert(units == v.value());
        assert(units <= (n - 1) * unit);
        vstd::arithmetic::div_mod::lemma_div_is_ordered(units, (n - 1) * unit, unit);
        vstd::arithmetic::div_mod::lemma_div_by_multiple(n - 1, unit);
        vstd::arithmetic::div_mod::lemma_div_pos_is_pos(units, unit);
    }
}

fn byte(
    data: &[u8],
    w: usize,
    Ghost(h): Ghost<int>,
    channels: usize,
    channel: usize,
    x: usize,
    y: usize,
) -> (v: Double)
    requires
        data@.len() == w * h * channels,
        channel < channels,
        plane::in_plane(w as int, h, x as int, y as int),
    ensures
        v == byte_at(data@, w as int, channels as int, channel as int, x as int, y as int),
{
    let ghost index = plane::index_of(w as int, x as int, y as int);
    proof {
        assert(data@.len() == data.len());
        plane::lemma_index_bounds(w as int, h, x as int, y as int);
        assert(0 <= index * channels && index * channels + channel < w * h * channels)
            by (nonlinear_arith)
            requires
                0 <= index < w * h,
                channel < channels,
        ;
        assert(index <= index * channels) by (nonlinear_arith)
            requires
                0 <= index,
                channels >= 1,
        ;
    }
    Double::from_count(data[(y * w + x) * channels + channel] as u64)
}

fn interpolate(
    data: &[u8],
    w: usize,
    h: usize,
    channels: usize,
    channel: usize,
    x: &Double,
    y: &Double,
) -> (v: Double)
    requires
        0 < w < 0x20_0000_0000_0000,
        0 < h < 0x20_0000_0000_0000,
        data@.len() == w * h * channels,
        channel < channels,
        !x.less(Double { bits: 0 }),
        !double::whole(w - 1).less(*x),
        !y.less(Double { bits: 0 }),
        !double::whole(h - 1).less(*y),
        double::is_whole(double::whole(w - 1), w - 1),
        double::is_whole(double::whole(h - 1), h - 1),
    ensures
        v == interpolated(data@, w as int, h as int, channels as int, channel as int, *x, *y),
{
    proof {
        lemma_truncated_inside(*x, w as int);
        lemma_truncated_inside(*y, h as int);
    }
    let x0: usize = x.truncate() as usize;
    let y0: usize = y.truncate() as usize;
    let x1: usize = if x0 + 1 < w {
        x0 + 1
    } else {
        w - 1
    };
    let y1: usize = if y0 + 1 < h {
        y0 + 1
    } else {
        h - 1
    };
    let fx: Double = *x - Double::from_count(x0 as u64);
    let fy: Double = *y - Double::from_count(y0 as u64);
    let ghost hi = h as int;
    let nw: Double = byte(data, w, Ghost(hi), channels, channel, x0, y0);
    let ne: Double = byte(data, w, Ghost(hi), channels, channel, x1, y0);
    let sw: Double = byte(data, w, Ghost(hi), channels, channel, x0, y1);
    let se: Double = byte(data, w, Ghost(hi), channels, channel, x1, y1);
    let one: Double = Double::from_bits(ONE);
    nw * (one - fx) * (one - fy) + ne * fx * (one - fy) + sw * (one - fx) * fy + se * fx * fy
}

/// Bilinear luma sample; a point outside the frame is sampled at its border.
pub fn sample_bilinear(gray: &[u8], width: usize, height: usize, x: Double, y: Double) -> (v:
    Double)
    requires
        0 < width < 0x20_0000_0000_0000,
        0 < height < 0x20_0000_0000_0000,
        gray@.len() == width * height,
    ensures
        v == luma_at(gray@, width as int, height as int, x, y),
{
    let zero: Double = Double::from_bits(0);
    let right: Double = Double::from_count((width - 1) as u64);
    let bottom: Double = Double::from_count((height - 1) as u64);
    let cx: Double = clamp(x, zero, right);
    let cy: Double = clamp(y, zero, bottom);
    proof {
        assert(width * height * 1 == width * height);
        lemma_clamped(x, right, width - 1);
        lemma_clamped(y, bottom, height - 1);
    }
    interpolate(gray, width, height, 1, 0, &cx, &cy)
}

proof fn lemma_clamped(v: Double, hi: Double, n: int)
    requires
        n >= 0,
        double::is_whole(hi, n),
    ensures
        !closure::clamped(v, Double { bits: 0 }, hi).less(Double { bits: 0 }),
        !hi.less(closure::clamped(v, Double { bits: 0 }, hi)),
{
    assert((Double { bits: 0 }).value() == 0) by {
        assert(crate::magnitude::units(0) == 0) by (nonlinear_arith);
    }
    vstd::arithmetic::power2::lemma_pow2_pos(1074);
    assert(n * vstd::arithmetic::power2::pow2(1074) >= 0) by (nonlinear_arith)
        requires
            n >= 0,
            vstd::arithmetic::power2::pow2(1074) > 0,
    ;
}

/// A luma plane that can be sampled between pixels.
pub struct Luma<'a> {
    pub gray: &'a [u8],
    pub width: usize,
    pub height: usize,
}

impl<'a> Luma<'a> {
    pub open spec fn wf(&self) -> bool {
        &&& 0 < self.width < 0x20_0000_0000_0000
        &&& 0 < self.height < 0x20_0000_0000_0000
        &&& self.gray@.len() == self.width * self.height
    }

    /// Luma at a point, or at the nearest point of the frame.
    pub open spec fn at(&self, p: Point) -> Double {
        luma_at(self.gray@, self.width as int, self.height as int, p[0], p[1])
    }

    /// Luma at a point, or at the nearest point of the frame.
    pub fn sample(&self, p: &Point) -> (v: Double)
        requires
            self.wf(),
        ensures
            v == self.at(*p),
    {
        sample_bilinear(self.gray, self.width, self.height, p[0], p[1])
    }
}

/// The luma plane that holds these pixels.
pub open spec fn luma_of<'a>(gray: Seq<u8>, width: usize, height: usize) -> Luma<'a> {
    Luma { gray: choose|s: &'a [u8]| #[trigger] s@ == gray, width, height }
}

/// A luma plane is determined by its pixels and its size.
pub proof fn lemma_luma_of<'a>(luma: Luma<'a>)
    ensures
        luma_of(luma.gray@, luma.width, luma.height) == luma,
{
    let s = choose|s: &'a [u8]| #[trigger] s@ == luma.gray@;
    assert(s@ == luma.gray@);
    assert(s =~= luma.gray);
}

/// A point of the frame: its coordinates lie between those of the first and the
/// last pixel.
pub open spec fn is_inside(w: int, h: int, x: Double, y: Double) -> bool {
    &&& (Double { bits: 0 }).at_most(x)
    &&& (Double { bits: 0 }).at_most(y)
    &&& x.at_most(double::whole(w - 1))
    &&& y.at_most(double::whole(h - 1))
}

/// A value as a byte: rounded, and kept between 0 and 255.
pub open spec fn as_byte(v: Double) -> u8 {
    let n = integral::rounded(v);
    if n < 0 {
        0
    } else if n > 255 {
        255
    } else {
        n as u8
    }
}

/// The colour at a point of an RGBA frame, if it is inside.
pub open spec fn colour_at(rgba: Seq<u8>, w: int, h: int, x: Double, y: Double) -> Option<[u8; 3]> {
    if is_inside(w, h, x, y) {
        Some(
            [
                as_byte(interpolated(rgba, w, h, 4, 0, x, y)),
                as_byte(interpolated(rgba, w, h, 4, 1, x, y)),
                as_byte(interpolated(rgba, w, h, 4, 2, x, y)),
            ],
        )
    } else {
        None
    }
}

fn to_byte(v: &Double) -> (b: u8)
    ensures
        b == as_byte(*v),
{
    let n: i64 = v.round();
    if n < 0 {
        0
    } else if n > 255 {
        255
    } else {
        n as u8
    }
}

/// Bilinear sample of the colour at a point of an RGBA frame, if it is inside.
pub fn sample_rgb(rgba: &[u8], width: usize, height: usize, x: Double, y: Double) -> (colour:
    Option<[u8; 3]>)
    requires
        0 < width < 0x20_0000_0000_0000,
        0 < height < 0x20_0000_0000_0000,
        rgba@.len() == width * height * 4,
    ensures
        colour == colour_at(rgba@, width as int, height as int, x, y),
{
    let zero: Double = Double::from_bits(0);
    let right: Double = Double::from_count((width - 1) as u64);
    let bottom: Double = Double::from_count((height - 1) as u64);
    if !(zero.le(&x) && zero.le(&y) && x.le(&right) && y.le(&bottom)) {
        return None;
    }
    let r: Double = interpolate(rgba, width, height, 4, 0, &x, &y);
    let g: Double = interpolate(rgba, width, height, 4, 1, &x, &y);
    let b: Double = interpolate(rgba, width, height, 4, 2, &x, &y);
    Some([to_byte(&r), to_byte(&g), to_byte(&b)])
}

} // verus!
