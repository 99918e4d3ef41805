//! A stage of 16-bit pixels, one alpha bit and five bits each of red, green
//! and blue, uploaded as 8-bit RGBA.

use vstd::prelude::*;
use crate::dirty::{DirtyTiles, TileGrid};
use crate::error::Error;
use crate::grid::{
    cell_index, lemma_area_grows, lemma_cell_index_in_range, lemma_cell_index_split,
};
use crate::options::PixstageOptions;
use crate::rect::Rect;
use crate::scaling::{
    Ratio, ScalingMode, ScalingState, compute_scaling, spec_uncropped_scale,
    spec_window_pos_to_pixel, uncropped_scale, window_pos_to_pixel,
};
use crate::stage::{Frame, MAX_REGIONS, StageView, TILE_SIZE, region_pixels};
use crate::surface::SurfaceTexture;

verus! {

/// A channel of five bits, widened to eight: `c * 255 / 31`, rounded.
pub open spec fn expand5(c: u16) -> u8 {
    ((c * 255 + 15) / 31) as u8
}

/// Red, green, blue and alpha of a pixel, eight bits each. The alpha bit
/// gives full or no opacity.
pub open spec fn spec_argb1555_to_rgba8(pixel: u16) -> Seq<u8> {
    seq![
        expand5((pixel / 1024) % 32),
        expand5((pixel / 32) % 32),
        expand5(pixel % 32),
        if pixel >= 0x8000 {
            255u8
        } else {
            0u8
        },
    ]
}

/// The bytes that upload `region`: four for each pixel, row by row without
/// gaps.
pub open spec fn region_rgba(pixels: Seq<u16>, width: u32, region: Rect) -> Seq<u8> {
    Seq::new(
        (region.width * region.height * 4) as nat,
        |i: int| spec_argb1555_to_rgba8(region_pixels(pixels, width, region)[i / 4])[i % 4],
    )
}

/// Red, green, blue and alpha of a pixel, eight bits each.
pub fn argb1555_to_rgba8(pixel: u16) -> (rgba: [u8; 4])
    ensures
        rgba@ == spec_argb1555_to_rgba8(pixel),
{
    let a1: u8 = ((pixel >> 15) & 0x1) as u8;
    let r5: u32 = ((pixel >> 10) & 0x1f) as u32;
    let g5: u32 = ((pixel >> 5) & 0x1f) as u32;
    let b5: u32 = (pixel & 0x1f) as u32;
    proof {
        assert(((pixel >> 15) & 0x1) == (if pixel >= 0x8000 {
            1u16
        } else {
            0u16
        })) by (bit_vector);
        assert(((pixel >> 10) & 0x1f) == (pixel / 1024) % 32) by (bit_vector);
        assert(((pixel >> 5) & 0x1f) == (pixel / 32) % 32) by (bit_vector);
        assert((pixel & 0x1f) == pixel % 32) by (bit_vector);
    }
    let r: u8 = ((r5 * 255 + 15) / 31) as u8;
    let g: u8 = ((g5 * 255 + 15) / 31) as u8;
    let b: u8 = ((b5 * 255 + 15) / 31) as u8;
    let a: u8 = if a1 == 1 {
        255
    } else {
        0
    };
    let rgba: [u8; 4] = [r, g, b, a];
    assert(rgba@ =~= spec_argb1555_to_rgba8(pixel));
    rgba
}

/// Writes the upload bytes of `region` into `out`.
fn encode_region(pixels: &Vec<u16>, width: u32, height: u32, region: Rect, out: &mut Vec<u8>)
    requires
        pixels@.len() == width * height,
        width * height * 4 <= usize::MAX,
        region.is_area(),
        region.within(width, height),
    ensures
        final(out)@ == region_rgba(pixels@, width, region),
{
    let ghost target = region_rgba(pixels@, width, region);
    let ghost source = region_pixels(pixels@, width, region);
    let rw: usize = region.width as usize;
    let rh: usize = region.height as usize;
    proof {
        lemma_area_grows(rw as int, rh as int, width as int, height as int);
    }
    out.clear();
    let mut row: usize = 0;
    while row < rh
        invariant
            pixels@.len() == width * height,
            width * height * 4 <= usize::MAX,
            region.is_area(),
            region.within(width, height),
            rw == region.width,
            rh == region.height,
            rw * rh <= width * height,
            target == region_rgba(pixels@, width, region),
            source == region_pixels(pixels@, width, region),
            row <= rh,
            out@.len() == 4 * (row * rw),
            forall|k: int| 0 <= k < out@.len() ==> out@[k] == target[k],
        decreases rh - row,
    {
        let mut col: usize = 0;
        proof {
            lemma_cell_index_in_range(
                width as int,
                height as int,
                region.x as int,
                region.y + row,
            );
        }
        let base: usize = (region.y as usize + row) * (width as usize) + region.x as usize;
        while col < rw
            invariant
                pixels@.len() == width * height,
                width * height * 4 <= usize::MAX,
                region.is_area(),
                region.within(width, height),
                rw == region.width,
                rh == region.height,
                rw * rh <= width * height,
                target == region_rgba(pixels@, width, region),
                source == region_pixels(pixels@, width, region),
                row < rh,
                col <= rw,
                base == cell_index(width as int, region.x as int, region.y + row),
                out@.len() == 4 * (row * rw + col),
                forall|k: int| 0 <= k < out@.len() ==> out@[k] == target[k],
            decreases rw - col,
        {
            proof {
                lemma_cell_index_in_range(
                    width as int,
                    height as int,
                    region.x + col,
                    region.y + row,
                );
                lemma_cell_index_in_range(rw as int, rh as int, col as int, row as int);
                lemma_cell_index_split(rw as int, col as int, row as int);
            }
            let pixel: u16 = pixels[base + col];
            let rgba: [u8; 4] = argb1555_to_rgba8(pixel);
            let ghost p: int = row * rw + col;
            let ghost held = out@;
            assert(source[p] == pixel);
            out.push(rgba[0]);
            out.push(rgba[1]);
            out.push(rgba[2]);
            out.push(rgba[3]);
            proof {
                assert forall|k: int| 0 <= k < out@.len() implies out@[k] == target[k] by {
                    if k >= held.len() {
                        assert(k / 4 == p);
                        assert(out@[k] == rgba@[k % 4]);
                    } else {
                        assert(out@[k] == held[k]);
                    }
                }
            }
            col += 1;
        }
        proof {
            assert((row + 1) * rw == row * rw + rw) by (nonlinear_arith);
        }
        row += 1;
    }
    proof {
        assert(rh * rw == rw * rh) by (nonlinear_arith);
        assert(region.width * region.height * 4 == 4 * (rw * rh)) by (nonlinear_arith)
            requires
                rw == region.width,
                rh == region.height,
        ;
        assert(out@ =~= target);
    }
}

/// Writes the upload bytes of the whole buffer into `out`, pixel after pixel.
fn encode_whole(pixels: &Vec<u16>, width: u32, height: u32, out: &mut Vec<u8>)
    requires
        width > 0,
        pixels@.len() == width * height,
        width * height * 4 <= usize::MAX,
    ensures
        final(out)@ == region_rgba(pixels@, width, Rect { x: 0, y: 0, width, height }),
{
    let ghost whole = Rect { x: 0, y: 0, width, height };
    let ghost target = region_rgba(pixels@, width, whole);
    proof {
        crate::stage::lemma_whole_region_is_buffer(pixels@, width, height);
    }
    out.clear();
    let n: usize = pixels.len();
    let mut i: usize = 0;
    while i < n
        invariant
            n == pixels@.len(),
            n == width * height,
            n * 4 <= usize::MAX,
            target == region_rgba(pixels@, width, whole),
            region_pixels(pixels@, width, whole) == pixels@,
            i <= n,
            out@.len() == 4 * i,
            forall|k: int| 0 <= k < out@.len() ==> out@[k] == target[k],
        decreases n - i,
    {
        let rgba: [u8; 4] = argb1555_to_rgba8(pixels[i]);
        let ghost held = out@;
        out.push(rgba[0]);
        out.push(rgba[1]);
        out.push(rgba[2]);
        out.push(rgba[3]);
        proof {
            assert forall|k: int| 0 <= k < out@.len() implies out@[k] == target[k] by {
                if k >= held.len() {
                    assert(k / 4 == i);
                    assert(out@[k] == rgba@[k % 4]);
                } else {
                    assert(out@[k] == held[k]);
                }
            }
        }
        i += 1;
    }
    assert(out@ =~= target);
}

/// A buffer of ARGB1555 pixels with its dirty tracker, its place on the
/// surface, and the bytes of the region that was staged last.
///
/// The stage's value (`@`) leaves out two fields. The scaling state is derived:
/// in a well-formed stage it is `scaling()` of the value. The scratch bytes
/// of the region staged last are handed out by `stage_region` and mean
/// nothing between calls.
#[derive(Debug)]
pub struct PixstageArgb1555 {
    scaling_mode: ScalingMode,
    scaling_state: ScalingState,
    clear_color: wgpu::Color,
    surface_width: u32,
    surface_height: u32,
    width: u32,
    height: u32,
    pixels: Vec<u16>,
    dirty: DirtyTiles,
    upload_buffer: Vec<u8>,
}

impl View for PixstageArgb1555 {
    type V = StageView<u16>;

    closed spec fn view(&self) -> StageView<u16> {
        StageView {
            width: self.width,
            height: self.height,
            pixels: self.pixels@,
            tracker: self.dirty@,
            surface_width: self.surface_width,
            surface_height: self.surface_height,
            scaling_mode: self.scaling_mode,
            clear_color: self.clear_color,
        }
    }
}

impl PixstageArgb1555 {
    /// The stage's parts agree: one pixel for each place of the buffer, a
    /// tracker over the buffer, the scaling of the buffer on the surface, and
    /// room in memory for the upload bytes of the whole buffer.
    pub closed spec fn wf(&self) -> bool {
        &&& self@.wf()
        &&& self.dirty.wf()
        &&& self.scaling_state == self@.scaling()
        &&& self.width * self.height * 4 <= usize::MAX
    }

    /// A well-formed stage has a well-formed value.
    pub proof fn lemma_view_wf(&self)
        requires
            self.wf(),
        ensures
            self@.wf(),
            self@.width * self@.height * 4 <= usize::MAX,
    {
    }

    /// A stage of `width` by `height` pixels for the given surface, with the
    /// default options: every pixel zero, everything dirty.
    pub fn new<W>(width: u32, height: u32, surface_texture: &SurfaceTexture<W>) -> (stage: Result<
        Self,
        Error,
    >)
        requires
            width * height * 4 <= usize::MAX,
        ensures
            width == 0 || height == 0 ==> stage is Err && stage->Err_0 == (
            Error::InvalidBufferSize { width, height }),
            width > 0 && height > 0 ==> stage is Ok && stage->Ok_0.wf() && stage->Ok_0@ == (
            StageView {
                width,
                height,
                pixels: Seq::new((width * height) as nat, |i: int| 0u16),
                tracker: TileGrid::fresh(width, height, TILE_SIZE).with_full(),
                surface_width: surface_texture.spec_size().0,
                surface_height: surface_texture.spec_size().1,
                scaling_mode: ScalingMode::PixelPerfect,
                clear_color: stage->Ok_0@.clear_color,
            }),
    {
        Self::new_with_options(width, height, surface_texture, PixstageOptions::default())
    }

    /// A stage of `width` by `height` pixels for the given surface, scaled
    /// and cleared as the options say: every pixel zero, everything dirty.
    pub fn new_with_options<W>(
        width: u32,
        height: u32,
        surface_texture: &SurfaceTexture<W>,
        options: PixstageOptions,
    ) -> (stage: Result<Self, Error>)
        requires
            width * height * 4 <= usize::MAX,
        ensures
            width == 0 || height == 0 ==> stage is Err && stage->Err_0 == (
            Error::InvalidBufferSize { width, height }),
            width > 0 && height > 0 ==> stage is Ok && stage->Ok_0.wf() && stage->Ok_0@ == (
            StageView {
                width,
                height,
                pixels: Seq::new((width * height) as nat, |i: int| 0u16),
                tracker: TileGrid::fresh(width, height, TILE_SIZE).with_full(),
                surface_width: surface_texture.spec_size().0,
                surface_height: surface_texture.spec_size().1,
                scaling_mode: options.scaling_mode,
                clear_color: options.clear_color,
            }),
    {
        if width == 0 || height == 0 {
            return Err(Error::InvalidBufferSize { width, height });
        }
        let scaling_mode: ScalingMode = options.scaling_mode;
        let surface_size: (u32, u32) = surface_texture.size();
        let scaling_state: ScalingState = compute_scaling(
            (width, height),
            surface_size,
            scaling_mode,
        );
        let mut dirty: DirtyTiles = DirtyTiles::new(width, height, TILE_SIZE);
        dirty.mark_full();
        let pixels: Vec<u16> = vec![0u16; width as usize * height as usize];
        let stage = PixstageArgb1555 {
            scaling_mode,
            scaling_state,
            clear_color: options.clear_color,
            surface_width: surface_size.0,
            surface_height: surface_size.1,
            width,
            height,
            pixels,
            dirty,
            upload_buffer: Vec::new(),
        };
        proof {
            dirty.lemma_view_wf();
            assert(stage@.pixels =~= Seq::new((width * height) as nat, |i: int| 0u16));
        }
        Ok(stage)
    }

    /// Takes the colour that the surface is cleared to around the buffer.
    pub fn clear_color(&mut self, clear_color: wgpu::Color)
        requires
            old(self).wf(),
        ensures
            final(self).wf(),
            final(self)@ == (StageView { clear_color, ..old(self)@ }),
    {
        self.clear_color = clear_color;
    }

    /// The colour that the surface is cleared to around the buffer.
    pub fn current_clear_color(&self) -> (clear_color: wgpu::Color)
        ensures
            clear_color == self@.clear_color,
    {
        self.clear_color
    }

    /// The buffer's width and height in pixels.

    pub fn buffer_size(&self) -> (size: (u32, u32))
        ensures
            size == (self@.width, self@.height),
    {
        (self.width, self.height)
    }

    /// The surface's width and height in physical pixels.

    pub fn surface_size(&self) -> (size: (u32, u32))
        ensures
            size == (self@.surface_width, self@.surface_height),
    {
        (self.surface_width, self.surface_height)
    }

    /// The scaling mode in force.

    pub fn scaling_mode(&self) -> (scaling_mode: ScalingMode)
        ensures
            scaling_mode == self@.scaling_mode,
    {
        self.scaling_mode
    }

    /// How the buffer lies on the surface.
    pub fn scaling_state(&self) -> (state: ScalingState)
        requires
            self.wf(),
        ensures
            state == self@.scaling(),
    {
        self.scaling_state
    }

    /// The whole scaled buffer's extent over the surface's, on each axis:
    /// the size of the quad to draw, which the clip rectangle cuts where the
    /// surface crops the buffer.
    pub fn uncropped_scale(&self) -> (quad: (Ratio, Ratio))
        requires
            self.wf(),
        ensures
            quad == spec_uncropped_scale(
                (self@.width, self@.height),
                (self@.surface_width, self@.surface_height),
                self@.scaling_mode,
            ),
            quad.0.den > 0,
            quad.1.den > 0,
    {
        uncropped_scale(
            (self.width, self.height),
            (self.surface_width, self.surface_height),
            self.scaling_mode,
        )
    }

    /// Takes a scaling mode and places the buffer anew.
    pub fn set_scaling_mode(&mut self, scaling_mode: ScalingMode)
        requires
            old(self).wf(),
        ensures
            final(self).wf(),
            final(self)@ == (StageView { scaling_mode, ..old(self)@ }),
    {
        if self.scaling_mode == scaling_mode {
            return ;
        }
        self.scaling_mode = scaling_mode;
        self.recompute_scaling();
    }

    /// Takes the surface's new size and places the buffer anew. A size with a
    /// zero extent is ignored.
    pub fn resize_surface(&mut self, width: u32, height: u32)
        requires
            old(self).wf(),
        ensures
            final(self).wf(),
            final(self)@ == if width == 0 || height == 0 {
                old(self)@
            } else {
                StageView { surface_width: width, surface_height: height, ..old(self)@ }
            },
    {
        if width == 0 || height == 0 {
            return ;
        }
        self.surface_width = width;
        self.surface_height = height;
        self.recompute_scaling();
    }

    /// Takes a new buffer size: every pixel zero, everything dirty. A size
    /// with a zero extent is refused, and the stage stays as it is.
    pub fn resize_buffer(&mut self, width: u32, height: u32) -> (done: Result<(), Error>)
        requires
            old(self).wf(),
            width * height * 4 <= usize::MAX,
        ensures
            final(self).wf(),
            width == 0 || height == 0 ==> done is Err && done->Err_0 == (
            Error::InvalidBufferSize { width, height }) && final(self)@ == old(self)@,
            width > 0 && height > 0 ==> done is Ok && final(self)@ == old(self)@.blank(
                width,
                height,
                0u16,
            ),
            width > 0 && height > 0 ==> final(self)@.tracker.full,
    {
        if width == 0 || height == 0 {
            return Err(Error::InvalidBufferSize { width, height });
        }
        proof {
            self.dirty.lemma_view_wf();
        }
        self.width = width;
        self.height = height;
        self.pixels = vec![0u16; width as usize * height as usize];
        self.dirty.resize(width, height);
        self.recompute_scaling();
        self.dirty.mark_full();
        proof {
            self.dirty.lemma_view_wf();
            assert(self@.pixels =~= Seq::new((width * height) as nat, |i: int| 0u16));
            assert(self@.tracker =~= TileGrid::fresh(width, height, TILE_SIZE).with_full());
        }
        Ok(())
    }

    /// The pixels in row-major order.
    pub fn frame(&self) -> (frame: &[u16])
        ensures
            frame@ == self@.pixels,
    {
        self.pixels.as_slice()
    }

    /// The pixels in row-major order, to write to. Everything counts as
    /// dirty afterwards.
    pub fn frame_mut(&mut self) -> (frame: &mut [u16])
        requires
            old(self).wf(),
        ensures
            frame@ == old(self)@.pixels,
            final(self)@ == (StageView {
                pixels: final(frame)@,
                tracker: old(self)@.tracker.with_full(),
                ..old(self)@
            }),
            final(frame)@.len() == frame@.len() ==> final(self).wf(),
    {
        self.dirty.mark_full();
        proof {
            self.dirty.lemma_view_wf();
        }
        self.pixels.as_mut_slice()
    }

    /// Sets every pixel to `value`. Everything counts as dirty afterwards.
    pub fn clear(&mut self, value: u16)
        requires
            old(self).wf(),
        ensures
            final(self).wf(),
            final(self)@ == (StageView {
                pixels: Seq::new(old(self)@.pixels.len(), |i: int| value),
                tracker: old(self)@.tracker.with_full(),
                ..old(self)@
            }),
    {
        let n: usize = self.pixels.len();
        let mut i: usize = 0;
        while i < n
            invariant
                n == self.pixels@.len(),
                i <= n,
                forall|k: int| 0 <= k < i ==> self.pixels@[k] == value,
                self.scaling_mode == old(self).scaling_mode,
                self.scaling_state == old(self).scaling_state,
                self.clear_color == old(self).clear_color,
                self.surface_width == old(self).surface_width,
                self.surface_height == old(self).surface_height,
                self.width == old(self).width,
                self.height == old(self).height,
                self.dirty == old(self).dirty,
            decreases n - i,
        {
            self.pixels[i] = value;
            i += 1;
        }
        self.dirty.mark_full();
        proof {
            self.dirty.lemma_view_wf();
            assert(self@.pixels =~= Seq::new(old(self)@.pixels.len(), |i: int| value));
        }
    }

    /// Writes one pixel and marks it dirty. A place outside the buffer is
    /// ignored.
    pub fn set_pixel(&mut self, x: u32, y: u32, value: u16)
        requires
            old(self).wf(),
        ensures
            final(self).wf(),
            final(self)@ == if x < old(self)@.width && y < old(self)@.height {
                StageView {
                    pixels: old(self)@.pixels.update(
                        cell_index(old(self)@.width as int, x as int, y as int),
                        value,
                    ),
                    tracker: old(self)@.tracker.mark_point(x, y),
                    ..old(self)@
                }
            } else {
                old(self)@
            },
    {
        if x >= self.width || y >= self.height {
            return ;
        }
        proof {
            lemma_cell_index_in_range(self.width as int, self.height as int, x as int, y as int);
        }
        let offset: usize = (y as usize) * (self.width as usize) + (x as usize);
        self.pixels[offset] = value;
        self.dirty.mark_point(x, y);
        proof {
            self.dirty.lemma_view_wf();
        }
    }

    /// Marks the part of `rect` that lies in the buffer dirty.
    pub fn mark_dirty(&mut self, rect: Rect)
        requires
            old(self).wf(),
        ensures
            final(self).wf(),
            final(self)@ == (StageView {
                tracker: old(self)@.tracker.mark_rect(rect),
                ..old(self)@
            }),
    {
        self.dirty.mark_rect(rect);
        proof {
            self.dirty.lemma_view_wf();
        }
    }

    /// The pixel under a point of the window, given in whole surface pixels.
    pub fn window_pos_to_pixel(&self, physical_position: (i32, i32)) -> (pixel: Result<
        (usize, usize),
        (isize, isize),
    >)
        requires
            self.wf(),
        ensures
            pixel == spec_window_pos_to_pixel(
                self@.scaling(),
                (self@.width, self@.height),
                physical_position,
            ),
            pixel is Ok ==> pixel->Ok_0.0 < self@.width && pixel->Ok_0.1 < self@.height,
    {
        window_pos_to_pixel(&self.scaling_state, (self.width, self.height), physical_position)
    }

    /// The frame to present next: the regions to upload, at most
    /// `MAX_REGIONS` of them, and the clip rectangle to draw in. Every mark
    /// is forgotten. A surface without pixels gets no frame, and the marks
    /// stay.
    pub fn render(&mut self) -> (frame: Option<Frame>)
        requires
            old(self).wf(),
        ensures
            final(self).wf(),
            old(self)@.surface_width == 0 || old(self)@.surface_height == 0 ==> frame is None
                && final(self)@ == old(self)@,
            old(self)@.surface_width > 0 && old(self)@.surface_height > 0 ==> {
                &&& frame is Some
                &&& final(self)@ == (StageView { tracker: old(self)@.tracker.cleared(), ..old(self)@ })
                &&& frame->Some_0.presents(old(self)@.tracker, old(self)@.scaling().clip_rect)
            },
    {
        if self.surface_width == 0 || self.surface_height == 0 {
            return None;
        }
        let ghost tracker = self.dirty@;
        let regions: Vec<Rect> = self.dirty.take_regions(MAX_REGIONS);
        proof {
            self.dirty.lemma_view_wf();
        }
        let frame = Frame { regions, clip_rect: self.scaling_state.clip_rect };
        assert(frame.presents(tracker, self.scaling_state.clip_rect));
        Some(frame)
    }

    /// Converts `region` to the upload format and hands out the bytes: four
    /// for each pixel, row by row without gaps.
    pub fn stage_region(&mut self, region: Rect) -> (bytes: &[u8])
        requires
            old(self).wf(),
            region.is_area(),
            region.within(old(self)@.width, old(self)@.height),
        ensures
            bytes@ == region_rgba(old(self)@.pixels, old(self)@.width, region),
            final(self).wf(),
            final(self)@ == old(self)@,
    {
        let is_full: bool = region.x == 0 && region.y == 0 && region.width == self.width
            && region.height == self.height;
        if is_full {
            encode_whole(&self.pixels, self.width, self.height, &mut self.upload_buffer);
        } else {
            encode_region(&self.pixels, self.width, self.height, region, &mut self.upload_buffer);
        }
        self.upload_buffer.as_slice()
    }

    fn recompute_scaling(&mut self)
        requires
            old(self).width > 0,
            old(self).height > 0,
        ensures
            final(self).scaling_state == final(self)@.scaling(),
            final(self).scaling_mode == old(self).scaling_mode,
            final(self).clear_color == old(self).clear_color,
            final(self).surface_width == old(self).surface_width,
            final(self).surface_height == old(self).surface_height,
            final(self).width == old(self).width,
            final(self).height == old(self).height,
            final(self).pixels == old(self).pixels,
            final(self).dirty == old(self).dirty,
            final(self).upload_buffer == old(self).upload_buffer,
    {
        self.scaling_state = compute_scaling(
            (self.width, self.height),
            (self.surface_width, self.surface_height),
            self.scaling_mode,
        );
    }
}

} // verus!
