//! Placing the pixel buffer on the window surface, and finding the pixel
//! under a point of the window.
//!
//! Every quantity is exact: a scale factor is a fraction of two integers, and
//! a clip rectangle is the floor of what the real numbers give.

use vstd::prelude::*;
use crate::rect::Rect;

verus! {

/// Controls how the pixel buffer is scaled to the surface.
#[derive(Debug, Copy, Clone, Eq, PartialEq, Structural)]
pub enum ScalingMode {
    /// Scale up by a whole factor, which keeps pixel edges crisp. Where the
    /// surface is smaller than the buffer, the centre of the buffer is shown.
    PixelPerfect,
    /// Scale up or down to fit the surface, keeping the aspect ratio.
    Fill,
}

/// How the buffer's texture is sampled when it is drawn.
#[derive(Debug, Copy, Clone, Eq, PartialEq, Structural)]
pub enum Filter {
    /// The nearest texel: pixel edges stay crisp.
    Nearest,
    /// A blend of the texels around: scaling by a fraction stays smooth.
    Linear,
}

impl ScalingMode {
    /// The filter that goes with the mode: the nearest texel for whole
    /// factors, a blend for fractions.
    pub open spec fn spec_filter(self) -> Filter {
        match self {
            ScalingMode::PixelPerfect => Filter::Nearest,
            ScalingMode::Fill => Filter::Linear,
        }
    }

    /// The filter that goes with the mode.
    pub fn filter(self) -> (filter: Filter)
        ensures
            filter == self.spec_filter(),
    {
        match self {
            ScalingMode::PixelPerfect => Filter::Nearest,
            ScalingMode::Fill => Filter::Linear,
        }
    }
}

/// The fraction `num / den`.
#[derive(Debug, Copy, Clone, Eq, PartialEq, Structural)]
pub struct Ratio {
    pub num: u64,
    pub den: u64,
}

/// How the buffer lies on the surface.
#[derive(Debug, Copy, Clone)]
pub struct ScalingState {
    /// The clip rectangle's width over the surface's width, the width taken
    /// before it is rounded down.
    pub ndc_scale_x: Ratio,
    /// The clip rectangle's height over the surface's height, the height
    /// taken before it is rounded down.
    pub ndc_scale_y: Ratio,
    /// The part of the surface that shows the buffer.
    pub clip_rect: Rect,
    /// Surface pixels per buffer pixel.
    pub buffer_to_surface_scale: Ratio,
}

/// The smaller of the two.

pub open spec fn int_min(a: int, b: int) -> int {
    if a <= b {
        a
    } else {
        b
    }
}

/// The larger of the two.

pub open spec fn int_max(a: int, b: int) -> int {
    if a >= b {
        a
    } else {
        b
    }
}

/// `v`, held in the range of `isize`.
pub open spec fn clamp_isize(v: int) -> isize {
    if v < isize::MIN {
        isize::MIN
    } else if v > isize::MAX {
        isize::MAX
    } else {
        v as isize
    }
}

/// The scale factor: in `PixelPerfect` the floor of the smaller of the two
/// ratios of surface to buffer, and at least one; in `Fill` the smaller of
/// the two ratios itself.
pub open spec fn spec_scale(buffer: (u32, u32), surface: (u32, u32), mode: ScalingMode) -> Ratio {
    match mode {
        ScalingMode::PixelPerfect => Ratio {
            num: int_max(
                int_min(
                    (surface.0 as int) / (buffer.0 as int),
                    (surface.1 as int) / (buffer.1 as int),
                ),
                1,
            ) as u64,
            den: 1,
        },
        ScalingMode::Fill => if surface.0 * buffer.1 <= surface.1 * buffer.0 {
            Ratio { num: surface.0 as u64, den: buffer.0 as u64 }
        } else {
            Ratio { num: surface.1 as u64, den: buffer.1 as u64 }
        },
    }
}

/// The clip rectangle's extent on one axis: the scaled buffer, no larger
/// than the surface and no smaller than one pixel, rounded down.
pub open spec fn spec_clip_extent(buffer_extent: u32, surface_extent: u32, scale: Ratio) -> int {
    int_max(int_min(buffer_extent * scale.num / (scale.den as int), surface_extent as int), 1)
}

/// The clip extent on one axis before it is rounded down, as a multiple of
/// `1 / scale.den`: the scaled buffer, no larger than the surface and no
/// smaller than one pixel.
pub open spec fn spec_clip_exact(buffer_extent: u32, surface_extent: u32, scale: Ratio) -> int {
    int_max(int_min(buffer_extent * scale.num, surface_extent * scale.den), scale.den as int)
}

/// The clip rectangle's origin on one axis: half of what the surface has
/// beyond the clip extent, rounded down.
pub open spec fn spec_clip_origin(buffer_extent: u32, surface_extent: u32, scale: Ratio) -> int {
    let clip = spec_clip_exact(buffer_extent, surface_extent, scale);
    if surface_extent * scale.den <= clip {
        0
    } else {
        (surface_extent * scale.den - clip) / (2 * scale.den)
    }
}

/// How a buffer of the given size lies on a surface of the given size. The
/// scale of the quad on each axis is the clip extent over the surface's
/// extent, the clip extent taken before it is rounded down and the surface's
/// extent taken as at least one.
pub open spec fn spec_scaling(
    buffer: (u32, u32),
    surface: (u32, u32),
    mode: ScalingMode,
) -> ScalingState {
    let scale = spec_scale(buffer, surface, mode);
    ScalingState {
        ndc_scale_x: Ratio {
            num: spec_clip_exact(buffer.0, surface.0, scale) as u64,
            den: (scale.den * int_max(surface.0 as int, 1)) as u64,
        },
        ndc_scale_y: Ratio {
            num: spec_clip_exact(buffer.1, surface.1, scale) as u64,
            den: (scale.den * int_max(surface.1 as int, 1)) as u64,
        },
        clip_rect: Rect {
            x: spec_clip_origin(buffer.0, surface.0, scale) as u32,
            y: spec_clip_origin(buffer.1, surface.1, scale) as u32,
            width: spec_clip_extent(buffer.0, surface.0, scale) as u32,
            height: spec_clip_extent(buffer.1, surface.1, scale) as u32,
        },
        buffer_to_surface_scale: scale,
    }
}

/// The whole scaled buffer's extent over the surface's extent, on each axis,
/// the surface's extent taken as at least one. It is the scale of the quad
/// where the surface shows the whole buffer, and larger where the surface
/// crops the buffer: a quad of this size, cut by the clip rectangle, shows
/// the buffer's centre unsqueezed.
pub open spec fn spec_uncropped_scale(
    buffer: (u32, u32),
    surface: (u32, u32),
    mode: ScalingMode,
) -> (Ratio, Ratio) {
    let scale = spec_scale(buffer, surface, mode);
    (
        Ratio {
            num: (buffer.0 * scale.num) as u64,
            den: (scale.den * int_max(surface.0 as int, 1)) as u64,
        },
        Ratio {
            num: (buffer.1 * scale.num) as u64,
            den: (scale.den * int_max(surface.1 as int, 1)) as u64,
        },
    )
}

/// The buffer coordinate under the surface coordinate `local`, counted from
/// the clip rectangle's origin: the floor of
/// `(buffer_extent - clip_extent / scale) / 2 + local / scale`.
/// A scale of zero counts as a positive scale below every other, which puts
/// the coordinate below every integer.
pub open spec fn spec_pixel_along(
    buffer_extent: u32,
    clip_extent: u32,
    scale: Ratio,
    local: int,
) -> int {
    if scale.num == 0 {
        isize::MIN as int
    } else {
        (buffer_extent * scale.num - clip_extent * scale.den + 2 * local * scale.den) / (2
            * scale.num)
    }
}

/// The pixel under a point of the window, or the point that missed: the
/// window point where it lies outside the clip rectangle, the buffer
/// coordinates where they lie outside the buffer.
pub open spec fn spec_window_pos_to_pixel(
    state: ScalingState,
    buffer: (u32, u32),
    position: (i32, i32),
) -> Result<(usize, usize), (isize, isize)> {
    let clip = state.clip_rect;
    if position.0 < clip.x || position.1 < clip.y || position.0 >= clip.x + clip.width
        || position.1 >= clip.y + clip.height {
        Err((position.0 as isize, position.1 as isize))
    } else {
        let px = spec_pixel_along(
            buffer.0,
            clip.width,
            state.buffer_to_surface_scale,
            position.0 - clip.x,
        );
        let py = spec_pixel_along(
            buffer.1,
            clip.height,
            state.buffer_to_surface_scale,
            position.1 - clip.y,
        );
        if px < 0 || py < 0 || px >= buffer.0 || py >= buffer.1 {
            Err((clamp_isize(px), clamp_isize(py)))
        } else {
            Ok((px as usize, py as usize))
        }
    }
}

impl ScalingState {
    /// The clip rectangle is an area, the scale's denominator is positive,
    /// and a scale of zero comes with a clip rectangle of one pixel.
    pub open spec fn wf(self) -> bool {
        &&& self.clip_rect.is_area()
        &&& self.buffer_to_surface_scale.den >= 1
        &&& self.buffer_to_surface_scale.num == 0 ==> self.clip_rect.width == 1
            && self.clip_rect.height == 1
    }
}

/// In whole-factor scaling of a buffer that fits the surface, the buffer is
/// shown whole, each pixel as a square of `k` by `k` surface pixels, and
/// every surface pixel of that square maps back to the pixel.
pub proof fn lemma_pixel_perfect_round_trip(
    buffer: (u32, u32),
    surface: (u32, u32),
    px: int,
    py: int,
    dx: int,
    dy: int,
)
    requires
        0 < buffer.0 <= surface.0,
        0 < buffer.1 <= surface.1,
        0 <= px < buffer.0,
        0 <= py < buffer.1,
        0 <= dx < spec_scale(buffer, surface, ScalingMode::PixelPerfect).num,
        0 <= dy < spec_scale(buffer, surface, ScalingMode::PixelPerfect).num,
        surface.0 <= i32::MAX,
        surface.1 <= i32::MAX,
    ensures
        ({
            let state = spec_scaling(buffer, surface, ScalingMode::PixelPerfect);
            let k = state.buffer_to_surface_scale.num as int;
            let x = state.clip_rect.x + px * k + dx;
            let y = state.clip_rect.y + py * k + dy;
            &&& k >= 1
            &&& state.buffer_to_surface_scale.den == 1
            &&& state.clip_rect.width == buffer.0 * k
            &&& state.clip_rect.height == buffer.1 * k
            &&& 0 <= x < surface.0
            &&& 0 <= y < surface.1
            &&& spec_window_pos_to_pixel(state, buffer, (x as i32, y as i32)) == Ok::<
                (usize, usize),
                (isize, isize),
            >((px as usize, py as usize))
        }),
{
    let state = spec_scaling(buffer, surface, ScalingMode::PixelPerfect);
    let scale = state.buffer_to_surface_scale;
    let k: int = scale.num as int;
    let bw: int = buffer.0 as int;
    let bh: int = buffer.1 as int;
    let sw: int = surface.0 as int;
    let sh: int = surface.1 as int;
    assert(1 <= sw / bw <= sw && 1 <= sh / bh <= sh && bw * (sw / bw) <= sw && bh * (sh / bh) <= sh)
        by (nonlinear_arith)
        requires
            1 <= bw <= sw,
            1 <= bh <= sh,
    ;
    assert(k == int_min(sw / bw, sh / bh));
    assert(bw * k <= sw && bh * k <= sh && bw * k >= 1 && bh * k >= 1) by (nonlinear_arith)
        requires
            1 <= k <= sw / bw,
            k <= sh / bh,
            bw * (sw / bw) <= sw,
            bh * (sh / bh) <= sh,
            bw >= 1,
            bh >= 1,
    ;
    lemma_round_trip_axis(bw, sw, k, px, dx);
    lemma_round_trip_axis(bh, sh, k, py, dy);
    assert(buffer.0 * scale.num == bw * k);
    assert(buffer.1 * scale.num == bh * k);
    assert(surface.0 * scale.den == sw);
    assert(surface.1 * scale.den == sh);
}

proof fn lemma_round_trip_axis(b: int, s: int, k: int, p: int, d: int)
    requires
        1 <= b,
        1 <= k,
        1 <= b * k <= s,
        0 <= p < b,
        0 <= d < k,
    ensures
        b * k / 1 == b * k,
        0 <= (s - b * k) / 2,
        (s - b * k) / 2 + b * k <= s,
        0 <= p * k + d < b * k,
        (b * k - (b * k) * 1 + 2 * (p * k + d) * 1) / (2 * k) == p,
        s * 1 == s,
{
    assert(0 <= p * k + d < b * k) by (nonlinear_arith)
        requires
            1 <= k,
            0 <= p < b,
            0 <= d < k,
    ;
    assert((2 * (p * k + d)) / (2 * k) == p) by (nonlinear_arith)
        requires
            1 <= k,
            0 <= p,
            0 <= d < k,
    ;
}

/// The scale of the quad on each axis is the clip rectangle's extent over
/// the surface's extent, taken before the clip extent is rounded down: the
/// clip rectangle's extent is the floor of the scale times the surface's
/// extent.
pub proof fn lemma_ndc_scale_is_clip_over_surface(
    buffer: (u32, u32),
    surface: (u32, u32),
    mode: ScalingMode,
)
    requires
        buffer.0 > 0,
        buffer.1 > 0,
    ensures
        ({
            let state = spec_scaling(buffer, surface, mode);
            let across = int_max(surface.0 as int, 1);
            let down = int_max(surface.1 as int, 1);
            &&& state.ndc_scale_x.den > 0
            &&& state.ndc_scale_y.den > 0
            &&& state.clip_rect.width * state.ndc_scale_x.den <= state.ndc_scale_x.num * across
            &&& state.ndc_scale_x.num * across < (state.clip_rect.width + 1)
                * state.ndc_scale_x.den
            &&& state.clip_rect.height * state.ndc_scale_y.den <= state.ndc_scale_y.num * down
            &&& state.ndc_scale_y.num * down < (state.clip_rect.height + 1)
                * state.ndc_scale_y.den
            &&& surface.0 >= 1 ==> state.ndc_scale_x.num <= state.ndc_scale_x.den
            &&& surface.1 >= 1 ==> state.ndc_scale_y.num <= state.ndc_scale_y.den
        }),
{
    let scale = spec_scale(buffer, surface, mode);
    assert(1 <= scale.den <= u32::MAX && 0 <= scale.num <= u32::MAX);
    lemma_ndc_axis(buffer.0, surface.0, scale);
    lemma_ndc_axis(buffer.1, surface.1, scale);
}

proof fn lemma_ndc_axis(buffer_extent: u32, surface_extent: u32, scale: Ratio)
    requires
        1 <= scale.den <= u32::MAX,
        scale.num <= u32::MAX,
    ensures
        ({
            let exact = spec_clip_exact(buffer_extent, surface_extent, scale);
            let extent = spec_clip_extent(buffer_extent, surface_extent, scale);
            let along = int_max(surface_extent as int, 1);
            let den = scale.den * along;
            &&& 1 <= extent <= u32::MAX
            &&& 1 <= exact <= 0xffff_fffe_0000_0001
            &&& 1 <= den <= 0xffff_fffe_0000_0001
            &&& extent * scale.den <= exact < extent * scale.den + scale.den
            &&& extent * den <= exact * along < (extent + 1) * den
            &&& surface_extent >= 1 ==> exact <= den
        }),
{
    let b: int = buffer_extent as int;
    let s: int = surface_extent as int;
    let n: int = scale.num as int;
    let d: int = scale.den as int;
    let m: int = int_max(s, 1);
    lemma_product_fits(b, n);
    lemma_product_fits(s, d);
    lemma_product_fits(d, m);
    let sc: int = b * n;
    let exact: int = int_max(int_min(sc, s * d), d);
    let extent: int = int_max(int_min(sc / d, s), 1);
    assert(extent * d <= exact < extent * d + d) by (nonlinear_arith)
        requires
            d >= 1,
            s >= 0,
            sc >= 0,
            exact == int_max(int_min(sc, s * d), d),
            extent == int_max(int_min(sc / d, s), 1),
    ;
    assert(extent * (d * m) <= exact * m < (extent + 1) * (d * m)) by (nonlinear_arith)
        requires
            extent * d <= exact < extent * d + d,
            m >= 1,
            d >= 1,
    ;
    assert(s >= 1 ==> s * d == d * m) by (nonlinear_arith)
        requires
            m == int_max(s, 1),
    ;
    assert(s >= 1 ==> d <= s * d) by (nonlinear_arith)
        requires
            d >= 1,
    ;
    assert(1 <= d * m) by (nonlinear_arith)
        requires
            d >= 1,
            m >= 1,
    ;
}

proof fn lemma_product_fits(a: int, b: int)
    requires
        0 <= a <= u32::MAX,
        0 <= b <= u32::MAX,
    ensures
        0 <= a * b <= 0xffff_fffe_0000_0001,
{
    assert(0 <= a * b <= 0xffff_ffff * 0xffff_ffff) by (nonlinear_arith)
        requires
            0 <= a <= 0xffff_ffff,
            0 <= b <= 0xffff_ffff,
    ;
}

proof fn lemma_scaled_fits(b: int, s: int, num: int, den: int)
    requires
        1 <= b <= u32::MAX,
        0 <= s <= u32::MAX,
        0 <= num <= u32::MAX,
        1 <= den <= u32::MAX,
        b * num <= s * den || num <= den,
    ensures
        0 <= b * num <= 0xffff_fffe_0000_0001,
        0 <= s * den <= 0xffff_fffe_0000_0001,
        0 <= b * num / den <= u32::MAX,
        num == 0 ==> b * num / den == 0,
{
    lemma_product_fits(b, num);
    lemma_product_fits(s, den);
    if b * num <= s * den {
        assert(b * num / den <= s) by (nonlinear_arith)
            requires
                0 <= b * num <= s * den,
                den >= 1,
        ;
    } else {
        assert(b * num / den <= b) by (nonlinear_arith)
            requires
                0 <= num <= den,
                den >= 1,
                b >= 0,
        ;
    }
    assert(0 <= b * num / den) by (nonlinear_arith)
        requires
            0 <= b * num,
            den >= 1,
    ;
    if num == 0 {
        assert(b * num == 0) by (nonlinear_arith)
            requires
                num == 0,
        ;
    }
}

/// The scale factor of a buffer on a surface.
fn scale_for(buffer: (u32, u32), surface: (u32, u32), mode: ScalingMode) -> (scale: Ratio)
    requires
        buffer.0 > 0,
        buffer.1 > 0,
    ensures
        scale == spec_scale(buffer, surface, mode),
        1 <= scale.den <= u32::MAX,
        scale.num <= u32::MAX,
        buffer.0 * scale.num <= surface.0 * scale.den || scale.num <= scale.den,
        buffer.1 * scale.num <= surface.1 * scale.den || scale.num <= scale.den,
        scale.num == 0 ==> surface.0 == 0 || surface.1 == 0,
{
    match mode {
        ScalingMode::PixelPerfect => {
            let across: u32 = surface.0 / buffer.0;
            let down: u32 = surface.1 / buffer.1;
            let whole: u32 = if across <= down {
                across
            } else {
                down
            };
            let whole: u32 = if whole >= 1 {
                whole
            } else {
                1
            };
            proof {
                let bw: int = buffer.0 as int;
                let bh: int = buffer.1 as int;
                let sw: int = surface.0 as int;
                let sh: int = surface.1 as int;
                assert(bw * (sw / bw) <= sw && bh * (sh / bh) <= sh) by (nonlinear_arith)
                    requires
                        bw >= 1,
                        bh >= 1,
                        sw >= 0,
                        sh >= 0,
                ;
                if whole > 1 {
                    assert(bw * whole <= bw * (sw / bw) && bh * whole <= bh * (sh / bh))
                        by (nonlinear_arith)
                        requires
                            bw >= 1,
                            bh >= 1,
                            0 <= whole <= sw / bw,
                            whole <= sh / bh,
                    ;
                }
            }
            Ratio { num: whole as u64, den: 1 }
        },
        ScalingMode::Fill => {
            proof {
                lemma_product_fits(surface.0 as int, buffer.1 as int);
                lemma_product_fits(surface.1 as int, buffer.0 as int);
            }
            let across: u64 = (surface.0 as u64) * (buffer.1 as u64);
            let down: u64 = (surface.1 as u64) * (buffer.0 as u64);
            proof {
                let bw: int = buffer.0 as int;
                let bh: int = buffer.1 as int;
                let sw: int = surface.0 as int;
                let sh: int = surface.1 as int;
                assert(bw * sw == sw * bw && bh * sh == sh * bh && sw * bh == bh * sw && sh * bw
                    == bw * sh) by (nonlinear_arith);
                assert(sw == 0 ==> sw * bh == 0) by (nonlinear_arith);
                assert(sh >= 1 ==> sh * bw >= 1) by (nonlinear_arith)
                    requires
                        bw >= 1,
                ;
                assert(sw >= 1 ==> sw * bh >= 1) by (nonlinear_arith)
                    requires
                        bh >= 1,
                ;
            }
            if across <= down {
                Ratio { num: surface.0 as u64, den: buffer.0 as u64 }
            } else {
                Ratio { num: surface.1 as u64, den: buffer.1 as u64 }
            }
        },
    }
}

/// The clip rectangle's origin and extent on one axis, and the extent before
/// it is rounded down, as a multiple of `1 / scale.den`.
fn clip_along(buffer_extent: u32, surface_extent: u32, scale: Ratio) -> (clip: (u32, u32, u64))
    requires
        buffer_extent >= 1,
        1 <= scale.den <= u32::MAX,
        scale.num <= u32::MAX,
        buffer_extent * scale.num <= surface_extent * scale.den || scale.num <= scale.den,
    ensures
        clip.0 == spec_clip_origin(buffer_extent, surface_extent, scale),
        clip.1 == spec_clip_extent(buffer_extent, surface_extent, scale),
        clip.2 == spec_clip_exact(buffer_extent, surface_extent, scale),
        clip.1 >= 1,
        scale.num == 0 ==> clip.1 == 1,
        surface_extent >= 1 ==> clip.0 + clip.1 <= surface_extent && 2 * clip.0 <= surface_extent
            - clip.1 <= 2 * clip.0 + 2,
{
    let b: u64 = buffer_extent as u64;
    let s: u64 = surface_extent as u64;
    proof {
        lemma_scaled_fits(b as int, s as int, scale.num as int, scale.den as int);
    }
    let scaled: u64 = b * scale.num;
    let room: u64 = s * scale.den;
    let floor: u64 = scaled / scale.den;
    let extent: u64 = if floor <= s {
        floor
    } else {
        s
    };
    let extent: u64 = if extent >= 1 {
        extent
    } else {
        1
    };
    let shown: u64 = if scaled <= room {
        scaled
    } else {
        room
    };
    let shown: u64 = if shown >= scale.den {
        shown
    } else {
        scale.den
    };
    let origin: u64 = if room <= shown {
        0
    } else {
        (room - shown) / (2 * scale.den)
    };
    proof {
        let d: int = scale.den as int;
        let si: int = s as int;
        let sc: int = scaled as int;
        let sh: int = shown as int;
        let e: int = extent as int;
        assert(si == 0 ==> room == 0) by (nonlinear_arith)
            requires
                room == si * d,
        ;
        assert(sc == buffer_extent * scale.num);
        assert(room == surface_extent * scale.den);
        if si >= 1 {
            assert(si * d >= d) by (nonlinear_arith)
                requires
                    si >= 1,
                    d >= 1,
            ;
            // `shown` lies between `e * d` and `e * d + d`.
            assert(e * d <= sh < e * d + d) by (nonlinear_arith)
                requires
                    d >= 1,
                    si >= 1,
                    sc >= 0,
                    sh == int_max(int_min(sc, si * d), d),
                    e == int_max(int_min(sc / d, si), 1),
            ;
            if room > shown {
                let o: int = (si * d - sh) / (2 * d);
                assert(origin == o);
                assert(2 * o * d <= si * d - sh < 2 * o * d + 2 * d) by (nonlinear_arith)
                    requires
                        o == (si * d - sh) / (2 * d),
                        d >= 1,
                        si * d - sh >= 0,
                ;
                assert(2 * o <= si - e <= 2 * o + 2) by (nonlinear_arith)
                    requires
                        2 * o * d <= si * d - sh < 2 * o * d + 2 * d,
                        e * d <= sh < e * d + d,
                        d >= 1,
                ;
                assert(o >= 0) by (nonlinear_arith)
                    requires
                        o == (si * d - sh) / (2 * d),
                        d >= 1,
                        si * d - sh >= 0,
                ;
            } else {
                assert(e >= si) by (nonlinear_arith)
                    requires
                        si * d <= sh,
                        sh < e * d + d,
                        d >= 1,
                ;
            }
        }
    }
    (origin as u32, extent as u32, shown)
}

/// How a buffer of `buffer_size` pixels lies on a surface of `surface_size`
/// pixels.
///
/// The clip rectangle is the scaled buffer, cut to the surface and centred
/// in it; a surface without pixels gets a clip rectangle of one pixel.
pub fn compute_scaling(
    buffer_size: (u32, u32),
    surface_size: (u32, u32),
    mode: ScalingMode,
) -> (state: ScalingState)
    requires
        buffer_size.0 > 0,
        buffer_size.1 > 0,
    ensures
        state == spec_scaling(buffer_size, surface_size, mode),
        state.wf(),
        surface_size.0 >= 1 && surface_size.1 >= 1 ==> state.clip_rect.within(
            surface_size.0,
            surface_size.1,
        ),
        surface_size.0 >= 1 ==> 2 * state.clip_rect.x <= surface_size.0 - state.clip_rect.width <= 2
            * state.clip_rect.x + 2,
        surface_size.1 >= 1 ==> 2 * state.clip_rect.y <= surface_size.1 - state.clip_rect.height
            <= 2 * state.clip_rect.y + 2,
        mode == ScalingMode::PixelPerfect ==> state.ndc_scale_x == (Ratio {
            num: state.clip_rect.width as u64,
            den: int_max(surface_size.0 as int, 1) as u64,
        }) && state.ndc_scale_y == (Ratio {
            num: state.clip_rect.height as u64,
            den: int_max(surface_size.1 as int, 1) as u64,
        }),
        state.clip_rect.width * state.ndc_scale_x.den <= state.ndc_scale_x.num * int_max(
            surface_size.0 as int,
            1,
        ) < (state.clip_rect.width + 1) * state.ndc_scale_x.den,
        state.clip_rect.height * state.ndc_scale_y.den <= state.ndc_scale_y.num * int_max(
            surface_size.1 as int,
            1,
        ) < (state.clip_rect.height + 1) * state.ndc_scale_y.den,
{
    let scale: Ratio = scale_for(buffer_size, surface_size, mode);
    let (clip_x, clip_width, exact_width) = clip_along(buffer_size.0, surface_size.0, scale);
    let (clip_y, clip_height, exact_height) = clip_along(buffer_size.1, surface_size.1, scale);
    let across: u64 = if surface_size.0 >= 1 {
        surface_size.0 as u64
    } else {
        1
    };
    let down: u64 = if surface_size.1 >= 1 {
        surface_size.1 as u64
    } else {
        1
    };
    proof {
        lemma_scaled_fits(
            buffer_size.0 as int,
            across as int,
            scale.num as int,
            scale.den as int,
        );
        lemma_scaled_fits(buffer_size.1 as int, down as int, scale.num as int, scale.den as int);
        assert(scale.den * across == across * scale.den && scale.den * down == down * scale.den)
            by (nonlinear_arith);
        lemma_ndc_axis(buffer_size.0, surface_size.0, scale);
        lemma_ndc_axis(buffer_size.1, surface_size.1, scale);
        if mode == ScalingMode::PixelPerfect {
            assert(clip_width * 1 == clip_width && clip_height * 1 == clip_height && 1 * across
                == across && 1 * down == down);
        }
    }
    ScalingState {
        ndc_scale_x: Ratio { num: exact_width, den: scale.den * across },
        ndc_scale_y: Ratio { num: exact_height, den: scale.den * down },
        clip_rect: Rect { x: clip_x, y: clip_y, width: clip_width, height: clip_height },
        buffer_to_surface_scale: scale,
    }
}

/// The whole scaled buffer's extent over the surface's extent, on each axis.
pub fn uncropped_scale(buffer_size: (u32, u32), surface_size: (u32, u32), mode: ScalingMode) -> (quad:
    (Ratio, Ratio))
    requires
        buffer_size.0 > 0,
        buffer_size.1 > 0,
    ensures
        quad == spec_uncropped_scale(buffer_size, surface_size, mode),
        quad.0.den > 0,
        quad.1.den > 0,
{
    let scale: Ratio = scale_for(buffer_size, surface_size, mode);
    let across: u64 = if surface_size.0 >= 1 {
        surface_size.0 as u64
    } else {
        1
    };
    let down: u64 = if surface_size.1 >= 1 {
        surface_size.1 as u64
    } else {
        1
    };
    proof {
        lemma_product_fits(buffer_size.0 as int, scale.num as int);
        lemma_product_fits(buffer_size.1 as int, scale.num as int);
        lemma_product_fits(scale.den as int, across as int);
        lemma_product_fits(scale.den as int, down as int);
        assert(scale.den * across >= 1 && scale.den * down >= 1) by (nonlinear_arith)
            requires
                scale.den >= 1,
                across >= 1,
                down >= 1,
        ;
    }
    (
        Ratio { num: (buffer_size.0 as u64) * scale.num, den: scale.den * across },
        Ratio { num: (buffer_size.1 as u64) * scale.num, den: scale.den * down },
    )
}

/// Where the surface shows the whole scaled buffer, the uncropped scale is
/// the scale of the quad.
pub proof fn lemma_uncropped_scale_is_ndc_scale(
    buffer: (u32, u32),
    surface: (u32, u32),
    mode: ScalingMode,
)
    requires
        buffer.0 > 0,
        buffer.1 > 0,
        ({
            let scale = spec_scale(buffer, surface, mode);
            &&& scale.den <= buffer.0 * scale.num <= surface.0 * scale.den
            &&& scale.den <= buffer.1 * scale.num <= surface.1 * scale.den
        }),
    ensures
        spec_uncropped_scale(buffer, surface, mode).0 == spec_scaling(
            buffer,
            surface,
            mode,
        ).ndc_scale_x,
        spec_uncropped_scale(buffer, surface, mode).1 == spec_scaling(
            buffer,
            surface,
            mode,
        ).ndc_scale_y,
{
}

/// The floor of `n / d`.
fn floor_div(n: i128, d: i128) -> (q: i128)
    requires
        d > 0,
        -0x4_0000_0000_0000_0000_0000_0000 <= n <= 0x4_0000_0000_0000_0000_0000_0000,
        d <= 0x4_0000_0000_0000_0000_0000_0000,
    ensures
        q == n / d,
{
    if n >= 0 {
        n / d
    } else {
        let m: i128 = -n;
        let k: i128 = (m + d - 1) / d;
        proof {
            let ni: int = n as int;
            let di: int = d as int;
            let ki: int = k as int;
            assert(ki * di >= -ni && ki * di < -ni + di && ki >= 0) by (nonlinear_arith)
                requires
                    ki == (-ni + di - 1) / di,
                    di > 0,
                    ni < 0,
            ;
            assert(ni / di == -ki) by (nonlinear_arith)
                requires
                    ki * di >= -ni,
                    ki * di < -ni + di,
                    di > 0,
            ;
            assert(ki <= -ni) by (nonlinear_arith)
                requires
                    ki * di < -ni + di,
                    di >= 1,
                    ki >= 0,
                    ni < 0,
            ;
        }
        -k
    }
}

/// The buffer coordinate under a surface coordinate that lies `local` pixels
/// into the clip rectangle.
fn pixel_along(buffer_extent: u32, clip_extent: u32, scale: Ratio, local: u32) -> (p: i128)
    ensures
        p == spec_pixel_along(buffer_extent, clip_extent, scale, local as int),
{
    if scale.num == 0 {
        return isize::MIN as i128;
    }
    let num: i128 = scale.num as i128;
    let den: i128 = scale.den as i128;
    proof {
        let b: int = buffer_extent as int;
        let c: int = clip_extent as int;
        let l: int = local as int;
        assert(0 <= b * num <= 0x1_0000_0000 * 0x1_0000_0000_0000_0000 && 0 <= c * den
            <= 0x1_0000_0000 * 0x1_0000_0000_0000_0000 && 0 <= l * den <= 0x1_0000_0000
            * 0x1_0000_0000_0000_0000) by (nonlinear_arith)
            requires
                0 <= b <= 0x1_0000_0000,
                0 <= c <= 0x1_0000_0000,
                0 <= l <= 0x1_0000_0000,
                0 <= num <= 0x1_0000_0000_0000_0000,
                0 <= den <= 0x1_0000_0000_0000_0000,
        ;
        assert(2 * l * den == 2 * (l * den)) by (nonlinear_arith);
    }
    let part: i128 = (local as i128) * den;
    let n: i128 = (buffer_extent as i128) * num - (clip_extent as i128) * den + 2 * part;
    floor_div(n, 2 * num)
}

/// `v`, held in the range of `isize`.
fn clamp_to_isize(v: i128) -> (c: isize)
    ensures
        c == clamp_isize(v as int),
{
    if v < isize::MIN as i128 {
        isize::MIN
    } else if v > isize::MAX as i128 {
        isize::MAX
    } else {
        v as isize
    }
}

/// The pixel of the buffer under a point of the window, given in whole
/// surface pixels.
///
/// A point outside the clip rectangle comes back as it is, as the error. A
/// point inside it whose buffer coordinates lie outside the buffer comes back
/// as those coordinates, held in the range of `isize`.
pub fn window_pos_to_pixel(
    state: &ScalingState,
    buffer_size: (u32, u32),
    physical_position: (i32, i32),
) -> (pixel: Result<(usize, usize), (isize, isize)>)
    requires
        state.wf(),
    ensures
        pixel == spec_window_pos_to_pixel(*state, buffer_size, physical_position),
        pixel is Ok ==> pixel.unwrap().0 < buffer_size.0 && pixel.unwrap().1 < buffer_size.1,
        pixel is Ok ==> state.clip_rect.contains(
            physical_position.0 as int,
            physical_position.1 as int,
        ),
{
    let clip: Rect = state.clip_rect;
    let x: i64 = physical_position.0 as i64;
    let y: i64 = physical_position.1 as i64;
    let clip_x: i64 = clip.x as i64;
    let clip_y: i64 = clip.y as i64;
    if x < clip_x || y < clip_y || x >= clip_x + clip.width as i64 || y >= clip_y
        + clip.height as i64 {
        return Err((physical_position.0 as isize, physical_position.1 as isize));
    }
    let local_x: u32 = (x - clip_x) as u32;
    let local_y: u32 = (y - clip_y) as u32;
    let pixel_x: i128 = pixel_along(
        buffer_size.0,
        clip.width,
        state.buffer_to_surface_scale,
        local_x,
    );
    let pixel_y: i128 = pixel_along(
        buffer_size.1,
        clip.height,
        state.buffer_to_surface_scale,
        local_y,
    );
    if pixel_x < 0 || pixel_y < 0 || pixel_x >= buffer_size.0 as i128 || pixel_y
        >= buffer_size.1 as i128 {
        Err((clamp_to_isize(pixel_x), clamp_to_isize(pixel_y)))
    } else {
        Ok((pixel_x as usize, pixel_y as usize))
    }
}

} // verus!
