//! A stage of 8-bit pixels that index a palette of 256 colours.

use vstd::prelude::*;
use crate::dirty::{DirtyTiles, TileGrid};
use crate::error::Error;
use crate::grid::{
    cell_index, lemma_area_grows, lemma_cell_index_in_range, lemma_cell_index_split,
};
use crate::options::PixstageOptions;
use crate::rect::Rect;
use crate::scaling::{
    Ratio, ScalingMode, ScalingState, compute_scaling, spec_uncropped_scale, uncropped_scale,
};
use crate::stage::{Frame, MAX_REGIONS, StageView, TILE_SIZE, region_pixels};
use crate::surface::SurfaceTexture;

verus! {

/// The number of palette entries.
pub const PALETTE_LEN: usize = 256;

/// An indexed stage as a value: the stage, the palette, and whether the
/// palette changed since it was last taken for upload.
pub struct IndexedView {
    pub stage: StageView<u8>,
    pub palette: Seq<[u8; 4]>,
    pub palette_dirty: bool,
}

/// The palette as the bytes that upload it: the four bytes of each entry, in
/// the order of the entries.
pub open spec fn spec_palette_bytes(palette: Seq<[u8; 4]>) -> Seq<u8> {
    Seq::new(palette.len() * 4, |i: int| palette[i / 4]@[i % 4])
}

/// The palette of a fresh stage: each entry black and opaque.
pub open spec fn is_fresh_palette(palette: Seq<[u8; 4]>) -> bool {
    &&& palette.len() == PALETTE_LEN
    &&& forall|i: int| 0 <= i < PALETTE_LEN ==> (#[trigger] palette[i])@ == seq![0u8, 0u8, 0u8, 255u8]
}

/// Calls `bytemuck::cast_slice`, from entries of four bytes to bytes. The
/// cast reads the same memory under the other type, so the result holds
/// the four bytes of each entry, in the order of the entries.
#[verifier::external_body]
fn palette_bytes(palette: &[[u8; 4]; 256]) -> (bytes: &[u8])
    ensures
        bytes@ == spec_palette_bytes(palette@),
{
    bytemuck::cast_slice(palette.as_slice())
}

/// Writes the pixels of `region` into `out`, row by row without gaps.
fn copy_region(pixels: &Vec<u8>, width: u32, height: u32, region: Rect, out: &mut Vec<u8>)
    requires
        pixels@.len() == width * height,
        width * height <= usize::MAX,
        region.is_area(),
        region.within(width, height),
    ensures
        final(out)@ == region_pixels(pixels@, width, region),
{
    let ghost target = region_pixels(pixels@, width, region);
    let rw: usize = region.width as usize;
    let rh: usize = region.height as usize;
    proof {
        lemma_area_grows(rw as int, rh as int, width as int, height as int);
    }
    out.clear();
    let source: &[u8] = pixels.as_slice();
    let mut row: usize = 0;
    while row < rh
        invariant
            source@ == pixels@,
            pixels@.len() == width * height,
            width * height <= usize::MAX,
            region.is_area(),
            region.within(width, height),
            rw == region.width,
            rh == region.height,
            rw * rh <= width * height,
            target == region_pixels(pixels@, width, region),
            row <= rh,
            out@.len() == row * rw,
            forall|k: int| 0 <= k < out@.len() ==> out@[k] == target[k],
        decreases rh - row,
    {
        proof {
            lemma_cell_index_in_range(
                width as int,
                height as int,
                region.x as int,
                region.y + row,
            );
            lemma_cell_index_in_range(
                width as int,
                height as int,
                region.x + rw - 1,
                region.y + row,
            );
            lemma_cell_index_in_range(rw as int, rh as int, rw - 1, row as int);
        }
        let src_start: usize = (region.y as usize + row) * (width as usize) + region.x as usize;
        let src_end: usize = src_start + rw;
        let ghost held = out@;
        out.extend_from_slice(&source[src_start..src_end]);
        proof {
            assert((row + 1) * rw == row * rw + rw) by (nonlinear_arith);
            assert forall|k: int| 0 <= k < out@.len() implies out@[k] == target[k] by {
                if k >= held.len() {
                    let col: int = k - held.len();
                    lemma_cell_index_split(rw as int, col, row as int);
                    assert(out@[k] == source@.subrange(src_start as int, src_end as int)[col]);
                } else {
                    assert(out@[k] == held[k]);
                }
            }
        }
        row += 1;
    }
    proof {
        assert(rh * rw == rw * rh) by (nonlinear_arith);
        assert(out@ =~= target);
    }
}

/// A buffer of palette indices with its palette, its dirty tracker, its
/// place on the surface, and the bytes of the region that was staged last.
///
/// The stage's value (`@`) leaves out two fields. The scaling state is derived:
/// in a well-formed stage it is `scaling()` of the value. The scratch bytes
/// of the region staged last are handed out by `stage_region` and mean
/// nothing between calls.
#[derive(Debug)]
pub struct PixstageIndexed {
    scaling_mode: ScalingMode,
    scaling_state: ScalingState,
    clear_color: wgpu::Color,
    surface_width: u32,
    surface_height: u32,
    width: u32,
    height: u32,
    indices: Vec<u8>,
    palette: [[u8; 4]; 256],
    dirty: DirtyTiles,
    palette_dirty: bool,
    upload_buffer: Vec<u8>,
}

impl View for PixstageIndexed {
    type V = IndexedView;

    closed spec fn view(&self) -> IndexedView {
        IndexedView {
            stage: StageView {
                width: self.width,
                height: self.height,
                pixels: self.indices@,
                tracker: self.dirty@,
                surface_width: self.surface_width,
                surface_height: self.surface_height,
                scaling_mode: self.scaling_mode,
                clear_color: self.clear_color,
            },
            palette: self.palette@,
            palette_dirty: self.palette_dirty,
        }
    }
}

impl PixstageIndexed {
    /// The stage's parts agree: one index for each place of the buffer, a
    /// tracker over the buffer, and the scaling of the buffer on the surface.
    pub closed spec fn wf(&self) -> bool {
        &&& self@.stage.wf()
        &&& self.dirty.wf()
        &&& self.scaling_state == self@.stage.scaling()
        &&& self.width * self.height <= usize::MAX
    }

    /// A well-formed stage has a well-formed value and a whole palette.
    pub proof fn lemma_view_wf(&self)
        requires
            self.wf(),
        ensures
            self@.stage.wf(),
            self@.palette.len() == PALETTE_LEN,
            self@.stage.width * self@.stage.height <= usize::MAX,
    {
    }

    /// A stage of `width` by `height` pixels for the given surface, with the
    /// default options: every index zero, every palette entry
    /// black and opaque, the pixels and the palette dirty.
    pub fn new<W>(width: u32, height: u32, surface_texture: &SurfaceTexture<W>) -> (stage: Result<
        Self,
        Error,
    >)
        requires
            width * height <= usize::MAX,
        ensures
            width == 0 || height == 0 ==> stage is Err && stage->Err_0 == (
            Error::InvalidBufferSize { width, height }),
            width > 0 && height > 0 ==> stage is Ok && stage->Ok_0.wf() && stage->Ok_0@.stage == (
            StageView {
                width,
                height,
                pixels: Seq::new((width * height) as nat, |i: int| 0u8),
                tracker: TileGrid::fresh(width, height, TILE_SIZE).with_full(),
                surface_width: surface_texture.spec_size().0,
                surface_height: surface_texture.spec_size().1,
                scaling_mode: ScalingMode::PixelPerfect,
                clear_color: stage->Ok_0@.stage.clear_color,
            }) && is_fresh_palette(stage->Ok_0@.palette) && stage->Ok_0@.palette_dirty,
    {
        Self::new_with_options(width, height, surface_texture, PixstageOptions::default())
    }

    /// A stage of `width` by `height` pixels for the given surface, scaled
    /// and cleared as the options say: every index zero, every palette entry
    /// black and opaque, the pixels and the palette dirty.
    pub fn new_with_options<W>(
        width: u32,
        height: u32,
        surface_texture: &SurfaceTexture<W>,
        options: PixstageOptions,
    ) -> (stage: Result<Self, Error>)
        requires
            width * height <= usize::MAX,
        ensures
            width == 0 || height == 0 ==> stage is Err && stage->Err_0 == (
            Error::InvalidBufferSize { width, height }),
            width > 0 && height > 0 ==> stage is Ok && stage->Ok_0.wf() && stage->Ok_0@.stage == (
            StageView {
                width,
                height,
                pixels: Seq::new((width * height) as nat, |i: int| 0u8),
                tracker: TileGrid::fresh(width, height, TILE_SIZE).with_full(),
                surface_width: surface_texture.spec_size().0,
                surface_height: surface_texture.spec_size().1,
                scaling_mode: options.scaling_mode,
                clear_color: options.clear_color,
            }) && is_fresh_palette(stage->Ok_0@.palette) && stage->Ok_0@.palette_dirty,
    {
        if width == 0 || height == 0 {
            return Err(Error::InvalidBufferSize { width, height });
        }
        let scaling_mode: ScalingMode = options.scaling_mode;
        let surface_size: (u32, u32) = surface_texture.size();
        let scaling_state: ScalingState = compute_scaling(
            (width, height),
            surface_size,
            scaling_mode,
        );
        let mut dirty: DirtyTiles = DirtyTiles::new(width, height, TILE_SIZE);
        dirty.mark_full();
        let indices: Vec<u8> = vec![0u8; width as usize * height as usize];
        let palette: [[u8; 4]; 256] = [[0u8, 0u8, 0u8, 255u8]; 256];
        let stage = PixstageIndexed {
            scaling_mode,
            scaling_state,
            clear_color: options.clear_color,
            surface_width: surface_size.0,
            surface_height: surface_size.1,
            width,
            height,
            indices,
            palette,
            dirty,
            palette_dirty: true,
            upload_buffer: Vec::new(),
        };
        proof {
            dirty.lemma_view_wf();
            assert(stage@.stage.pixels =~= Seq::new((width * height) as nat, |i: int| 0u8));
            assert forall|i: int| 0 <= i < PALETTE_LEN implies (#[trigger] stage@.palette[i])@
                == seq![0u8, 0u8, 0u8, 255u8] by {
                assert(stage@.palette[i]@ =~= seq![0u8, 0u8, 0u8, 255u8]);
            }
        }
        Ok(stage)
    }

    /// Takes the colour that the surface is cleared to around the buffer.
    pub fn clear_color(&mut self, clear_color: wgpu::Color)
        requires
            old(self).wf(),
        ensures
            final(self).wf(),
            final(self)@ == (IndexedView {
                stage: StageView { clear_color, ..old(self)@.stage },
                ..old(self)@
            }),
    {
        self.clear_color = clear_color;
    }

    /// The colour that the surface is cleared to around the buffer.
    pub fn current_clear_color(&self) -> (clear_color: wgpu::Color)
        ensures
            clear_color == self@.stage.clear_color,
    {
        self.clear_color
    }

    /// The buffer's width and height in pixels.

    pub fn buffer_size(&self) -> (size: (u32, u32))
        ensures
            size == (self@.stage.width, self@.stage.height),
    {
        (self.width, self.height)
    }

    /// The surface's width and height in physical pixels.

    pub fn surface_size(&self) -> (size: (u32, u32))
        ensures
            size == (self@.stage.surface_width, self@.stage.surface_height),
    {
        (self.surface_width, self.surface_height)
    }

    /// The scaling mode in force.

    pub fn scaling_mode(&self) -> (scaling_mode: ScalingMode)
        ensures
            scaling_mode == self@.stage.scaling_mode,
    {
        self.scaling_mode
    }

    /// How the buffer lies on the surface.
    pub fn scaling_state(&self) -> (state: ScalingState)
        requires
            self.wf(),
        ensures
            state == self@.stage.scaling(),
    {
        self.scaling_state
    }

    /// The whole scaled buffer's extent over the surface's, on each axis:
    /// the size of the quad to draw, which the clip rectangle cuts where the
    /// surface crops the buffer.
    pub fn uncropped_scale(&self) -> (quad: (Ratio, Ratio))
        requires
            self.wf(),
        ensures
            quad == spec_uncropped_scale(
                (self@.stage.width, self@.stage.height),
                (self@.stage.surface_width, self@.stage.surface_height),
                self@.stage.scaling_mode,
            ),
            quad.0.den > 0,
            quad.1.den > 0,
    {
        uncropped_scale(
            (self.width, self.height),
            (self.surface_width, self.surface_height),
            self.scaling_mode,
        )
    }

    /// Takes a scaling mode and places the buffer anew.
    pub fn set_scaling_mode(&mut self, scaling_mode: ScalingMode)
        requires
            old(self).wf(),
        ensures
            final(self).wf(),
            final(self)@ == (IndexedView {
                stage: StageView { scaling_mode, ..old(self)@.stage },
                ..old(self)@
            }),
    {
        if self.scaling_mode == scaling_mode {
            return ;
        }
        self.scaling_mode = scaling_mode;
        self.recompute_scaling();
    }

    /// Takes the surface's new size and places the buffer anew. A size with a
    /// zero extent is ignored.
    pub fn resize_surface(&mut self, width: u32, height: u32)
        requires
            old(self).wf(),
        ensures
            final(self).wf(),
            final(self)@ == if width == 0 || height == 0 {
                old(self)@
            } else {
                IndexedView {
                    stage: StageView {
                        surface_width: width,
                        surface_height: height,
                        ..old(self)@.stage
                    },
                    ..old(self)@
                }
            },
    {
        if width == 0 || height == 0 {
            return ;
        }
        self.surface_width = width;
        self.surface_height = height;
        self.recompute_scaling();
    }

    /// Takes a new buffer size: every index zero, everything dirty. A size
    /// with a zero extent is refused, and the stage stays as it is.
    pub fn resize_buffer(&mut self, width: u32, height: u32) -> (done: Result<(), Error>)
        requires
            old(self).wf(),
            width * height <= usize::MAX,
        ensures
            final(self).wf(),
            width == 0 || height == 0 ==> done is Err && done->Err_0 == (
            Error::InvalidBufferSize { width, height }) && final(self)@ == old(self)@,
            width > 0 && height > 0 ==> done is Ok && final(self)@ == (IndexedView {
                stage: old(self)@.stage.blank(width, height, 0u8),
                ..old(self)@
            }),
            width > 0 && height > 0 ==> final(self)@.stage.tracker.full,
    {
        if width == 0 || height == 0 {
            return Err(Error::InvalidBufferSize { width, height });
        }
        proof {
            self.dirty.lemma_view_wf();
        }
        self.width = width;
        self.height = height;
        self.indices = vec![0u8; width as usize * height as usize];
        self.dirty.resize(width, height);
        self.recompute_scaling();
        self.dirty.mark_full();
        proof {
            self.dirty.lemma_view_wf();
            assert(self@.stage.pixels =~= Seq::new((width * height) as nat, |i: int| 0u8));
            assert(self@.stage.tracker =~= TileGrid::fresh(width, height, TILE_SIZE).with_full());
        }
        Ok(())
    }

    /// The indices in row-major order.
    pub fn frame(&self) -> (frame: &[u8])
        ensures
            frame@ == self@.stage.pixels,
    {
        self.indices.as_slice()
    }

    /// The indices in row-major order, to write to. Everything counts as
    /// dirty afterwards.
    pub fn frame_mut(&mut self) -> (frame: &mut [u8])
        requires
            old(self).wf(),
        ensures
            frame@ == old(self)@.stage.pixels,
            final(self)@ == (IndexedView {
                stage: StageView {
                    pixels: final(frame)@,
                    tracker: old(self)@.stage.tracker.with_full(),
                    ..old(self)@.stage
                },
                ..old(self)@
            }),
            final(frame)@.len() == frame@.len() ==> final(self).wf(),
    {
        self.dirty.mark_full();
        proof {
            self.dirty.lemma_view_wf();
        }
        self.indices.as_mut_slice()
    }

    /// Writes one index and marks its pixel dirty. A place outside the buffer
    /// is ignored.
    pub fn set_index(&mut self, x: u32, y: u32, index: u8)
        requires
            old(self).wf(),
        ensures
            final(self).wf(),
            final(self)@ == if x < old(self)@.stage.width && y < old(self)@.stage.height {
                IndexedView {
                    stage: StageView {
                        pixels: old(self)@.stage.pixels.update(
                            cell_index(old(self)@.stage.width as int, x as int, y as int),
                            index,
                        ),
                        tracker: old(self)@.stage.tracker.mark_point(x, y),
                        ..old(self)@.stage
                    },
                    ..old(self)@
                }
            } else {
                old(self)@
            },
    {
        if x >= self.width || y >= self.height {
            return ;
        }
        proof {
            lemma_cell_index_in_range(self.width as int, self.height as int, x as int, y as int);
        }
        let offset: usize = (y as usize) * (self.width as usize) + (x as usize);
        self.indices[offset] = index;
        self.dirty.mark_point(x, y);
        proof {
            self.dirty.lemma_view_wf();
        }
    }

    /// Marks the part of `rect` that lies in the buffer dirty.
    pub fn mark_dirty(&mut self, rect: Rect)
        requires
            old(self).wf(),
        ensures
            final(self).wf(),
            final(self)@ == (IndexedView {
                stage: StageView {
                    tracker: old(self)@.stage.tracker.mark_rect(rect),
                    ..old(self)@.stage
                },
                ..old(self)@
            }),
    {
        self.dirty.mark_rect(rect);
        proof {
            self.dirty.lemma_view_wf();
        }
    }

    /// The palette.
    pub fn palette(&self) -> (palette: &[[u8; 4]; 256])
        ensures
            palette@ == self@.palette,
    {
        &self.palette
    }

    /// The palette, to write to. It counts as dirty afterwards.
    pub fn palette_mut(&mut self) -> (palette: &mut [[u8; 4]; 256])
        requires
            old(self).wf(),
        ensures
            palette@ == old(self)@.palette,
            final(self)@ == (IndexedView {
                palette: final(palette)@,
                palette_dirty: true,
                ..old(self)@
            }),
            final(self).wf(),
    {
        self.palette_dirty = true;
        &mut self.palette
    }

    /// Sets one palette entry. The palette counts as dirty afterwards.
    pub fn set_palette_entry(&mut self, index: u8, color: [u8; 4])
        requires
            old(self).wf(),
        ensures
            final(self).wf(),
            final(self)@ == (IndexedView {
                palette: old(self)@.palette.update(index as int, color),
                palette_dirty: true,
                ..old(self)@
            }),
    {
        self.palette[index as usize] = color;
        self.palette_dirty = true;
    }

    /// Hands out the palette as upload bytes where it changed since it was
    /// last taken, and counts it as clean.
    pub fn take_palette_upload(&mut self) -> (bytes: Option<&[u8]>)
        requires
            old(self).wf(),
        ensures
            final(self).wf(),
            final(self)@ == (IndexedView { palette_dirty: false, ..old(self)@ }),
            old(self)@.palette_dirty ==> bytes is Some && bytes->Some_0@ == spec_palette_bytes(
                old(self)@.palette,
            ),
            !old(self)@.palette_dirty ==> bytes is None,
    {
        if !self.palette_dirty {
            return None;
        }
        self.palette_dirty = false;
        Some(palette_bytes(&self.palette))
    }

    /// The frame to present next: the regions to upload, at most
    /// `MAX_REGIONS` of them, and the clip rectangle to draw in. Every mark
    /// on the pixels is forgotten; the palette is taken for upload apart. A
    /// surface without pixels gets no frame, and the marks stay.
    pub fn render(&mut self) -> (frame: Option<Frame>)
        requires
            old(self).wf(),
        ensures
            final(self).wf(),
            old(self)@.stage.surface_width == 0 || old(self)@.stage.surface_height == 0 ==> frame is None
                && final(self)@ == old(self)@,
            old(self)@.stage.surface_width > 0 && old(self)@.stage.surface_height > 0 ==> {
                &&& frame is Some
                &&& final(self)@ == (IndexedView {
                    stage: StageView {
                        tracker: old(self)@.stage.tracker.cleared(),
                        ..old(self)@.stage
                    },
                    ..old(self)@
                })
                &&& frame->Some_0.presents(old(self)@.stage.tracker, old(self)@.stage.scaling().clip_rect)
            },
    {
        if self.surface_width == 0 || self.surface_height == 0 {
            return None;
        }
        let ghost tracker = self.dirty@;
        let regions: Vec<Rect> = self.dirty.take_regions(MAX_REGIONS);
        proof {
            self.dirty.lemma_view_wf();
        }
        let frame = Frame { regions, clip_rect: self.scaling_state.clip_rect };
        assert(frame.presents(tracker, self.scaling_state.clip_rect));
        Some(frame)
    }

    /// Hands out the bytes that upload `region`: one for each pixel, row by
    /// row without gaps. The region that is the whole buffer is the buffer
    /// itself; any other is copied.
    pub fn stage_region(&mut self, region: Rect) -> (bytes: &[u8])
        requires
            old(self).wf(),
            region.is_area(),
            region.within(old(self)@.stage.width, old(self)@.stage.height),
        ensures
            bytes@ == region_pixels(old(self)@.stage.pixels, old(self)@.stage.width, region),
            final(self).wf(),
            final(self)@ == old(self)@,
    {
        if region.x == 0 && region.y == 0 && region.width == self.width && region.height
            == self.height {
            proof {
                crate::stage::lemma_whole_region_is_buffer(
                    self.indices@,
                    self.width,
                    self.height,
                );
            }
            return self.indices.as_slice();
        }
        copy_region(&self.indices, self.width, self.height, region, &mut self.upload_buffer);
        self.upload_buffer.as_slice()
    }

    fn recompute_scaling(&mut self)
        requires
            old(self).width > 0,
            old(self).height > 0,
        ensures
            final(self).scaling_state == final(self)@.stage.scaling(),
            final(self).scaling_mode == old(self).scaling_mode,
            final(self).clear_color == old(self).clear_color,
            final(self).surface_width == old(self).surface_width,
            final(self).surface_height == old(self).surface_height,
            final(self).width == old(self).width,
            final(self).height == old(self).height,
            final(self).indices == old(self).indices,
            final(self).palette == old(self).palette,
            final(self).dirty == old(self).dirty,
            final(self).palette_dirty == old(self).palette_dirty,
            final(self).upload_buffer == old(self).upload_buffer,
    {
        self.scaling_state = compute_scaling(
            (self.width, self.height),
            (self.surface_width, self.surface_height),
            self.scaling_mode,
        );
    }
}

} // verus!
