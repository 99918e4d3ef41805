//! What every stage stands for, whatever its pixel encoding.

use vstd::prelude::*;
use crate::dirty::TileGrid;
use crate::grid::cell_index;
use crate::rect::Rect;
use crate::scaling::{ScalingMode, ScalingState, spec_scaling};

verus! {

/// The edge of a dirty tile in pixels.
pub const TILE_SIZE: u32 = 32;

/// The most regions that one frame uploads.
pub const MAX_REGIONS: usize = 64;

/// What one frame takes: the regions of the buffer to upload, and the part
/// of the surface to draw to.
#[derive(Debug)]
pub struct Frame {
    pub regions: Vec<Rect>,
    pub clip_rect: Rect,
}

impl Frame {
    /// The frame is what draining `tracker` hands out, to be drawn inside
    /// `clip_rect`: the regions are those of the drain with the cap
    /// `MAX_REGIONS`.
    pub open spec fn presents(self, tracker: TileGrid, clip_rect: Rect) -> bool {
        &&& self.clip_rect == clip_rect
        &&& tracker.drains_to(MAX_REGIONS, self.regions@)
        &&& self.regions@.len() <= MAX_REGIONS
    }
}

/// The regions of a frame are areas inside the buffer, and every dirty
/// pixel lies in one of them. Where everything was dirty, the whole buffer is
/// the one region.
pub proof fn lemma_frame_covers(frame: Frame, tracker: TileGrid, clip_rect: Rect)
    requires
        tracker.wf(),
        frame.presents(tracker, clip_rect),
    ensures
        crate::sweep::regions_inside(frame.regions@, tracker.width, tracker.height),
        tracker.covered_by(frame.regions@),
        tracker.full && tracker.width > 0 && tracker.height > 0 ==> frame.regions@ =~= seq![
            tracker.full_rect(),
        ],
{
    crate::sweep::lemma_drain_covers(tracker, MAX_REGIONS, frame.regions@);
}

/// A stage as a value: the pixel buffer in row-major order, the dirty
/// tracker's grid, the surface's size, the scaling mode, and the colour of
/// the surface around the buffer.
pub struct StageView<P> {
    pub width: u32,
    pub height: u32,
    pub pixels: Seq<P>,
    pub tracker: TileGrid,
    pub surface_width: u32,
    pub surface_height: u32,
    pub scaling_mode: ScalingMode,
    pub clear_color: wgpu::Color,
}

impl<P> StageView<P> {
    /// The buffer has pixels, one entry for each, and the tracker covers the
    /// buffer.
    pub open spec fn wf(self) -> bool {
        &&& self.width > 0
        &&& self.height > 0
        &&& self.pixels.len() == self.width * self.height
        &&& self.tracker.wf()
        &&& self.tracker.width == self.width
        &&& self.tracker.height == self.height
        &&& self.tracker.tile_size == TILE_SIZE
    }

    /// How the buffer lies on the surface.
    pub open spec fn scaling(self) -> ScalingState {
        spec_scaling(
            (self.width, self.height),
            (self.surface_width, self.surface_height),
            self.scaling_mode,
        )
    }

    /// The pixel at `(x, y)`.
    pub open spec fn pixel(self, x: int, y: int) -> P {
        self.pixels[cell_index(self.width as int, x, y)]
    }

    /// A buffer of `width` by `height` pixels, each `fill`, with everything
    /// dirty.
    pub open spec fn blank(self, width: u32, height: u32, fill: P) -> StageView<P> {
        StageView {
            width,
            height,
            pixels: Seq::new((width * height) as nat, |i: int| fill),
            tracker: TileGrid::fresh(width, height, TILE_SIZE).with_full(),
            ..self
        }
    }
}

/// The pixels of `region`, row by row without gaps.
pub open spec fn region_pixels<P>(pixels: Seq<P>, width: u32, region: Rect) -> Seq<P> {
    Seq::new(
        (region.width * region.height) as nat,
        |i: int|
            pixels[cell_index(
                width as int,
                region.x + i % (region.width as int),
                region.y + i / (region.width as int),
            )],
    )
}

/// The region that is the whole buffer holds the buffer's pixels as they
/// are.
pub proof fn lemma_whole_region_is_buffer<P>(pixels: Seq<P>, width: u32, height: u32)
    requires
        width > 0,
        pixels.len() == width * height,
    ensures
        region_pixels(pixels, width, Rect { x: 0, y: 0, width, height }) =~= pixels,
{
    let region = Rect { x: 0, y: 0, width, height };
    let w: int = width as int;
    assert forall|i: int| 0 <= i < pixels.len() implies region_pixels(pixels, width, region)[i]
        == pixels[i] by {
        vstd::arithmetic::div_mod::lemma_fundamental_div_mod(i, w);
        assert(w * (i / w) == (i / w) * w) by (nonlinear_arith);
    }
}

/// After a buffer was given a new size, the next drain hands out the whole
/// buffer as one region, with no mark made.
pub proof fn lemma_blank_drains_to_whole<P>(
    v: StageView<P>,
    width: u32,
    height: u32,
    fill: P,
    max_regions: usize,
    regions: Seq<Rect>,
)
    requires
        width > 0,
        height > 0,
        v.blank(width, height, fill).tracker.drains_to(max_regions, regions),
    ensures
        regions =~= seq![Rect { x: 0, y: 0, width, height }],
{
}

} // verus!
