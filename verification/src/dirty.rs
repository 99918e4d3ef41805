//! Tile-granular dirty tracking.
//!
//! The buffer is cut into square tiles. Each tile has one dirty bit, and a
//! separate flag says that the whole buffer is dirty. Draining the tracker
//! sweeps the tile rows top to bottom, joins dirty tiles into horizontal runs
//! and equal runs of adjacent rows into blocks, and hands the blocks out as
//! pixel rectangles.

use vstd::prelude::*;
use crate::grid::{lemma_cell_index_in_range, lemma_cell_index_injective};
use crate::rect::Rect;
use crate::sweep::{
    TileSpan, cap_regions, lemma_block_has_dirty_tile, lemma_drain_covers, lemma_row_covered,
    lemma_span_rect, lemma_sweep_done, merge_row, regions_inside, union_all,
};

verus! {

/// The number of tiles of edge `tile_size` that cover `extent` pixels; one
/// tile where the extent is zero.
pub open spec fn tile_count(extent: u32, tile_size: u32) -> int {
    if extent == 0 {
        1
    } else {
        (extent + tile_size - 1) / (tile_size as int)
    }
}

/// Bit `i` of a sequence of 64-bit words.
pub open spec fn bit_set(words: Seq<u64>, i: int) -> bool {
    words[i / 64] & (1u64 << ((i % 64) as u64)) != 0
}

/// The number of 64-bit words that hold `bits` bits.
pub open spec fn word_count(bits: int) -> int {
    if bits % 64 == 0 {
        bits / 64
    } else {
        bits / 64 + 1
    }
}

/// What a tracker stands for: the buffer's size, the tile edge, the flag for
/// "everything is dirty", and the set of dirty tiles by column and row.
///
/// The tracker's running count of dirty tiles is no part of the value: in a
/// well-formed tracker it is the size of `dirty`, held at `u32::MAX`.
pub struct TileGrid {
    pub width: u32,
    pub height: u32,
    pub tile_size: u32,
    pub full: bool,
    pub dirty: Set<(int, int)>,
}

impl TileGrid {
    /// The number of tile columns.
    pub open spec fn tiles_x(self) -> int {
        tile_count(self.width, self.tile_size)
    }

    /// The number of tile rows.

    pub open spec fn tiles_y(self) -> int {
        tile_count(self.height, self.tile_size)
    }

    /// The tile `(tx, ty)` lies in the grid.

    pub open spec fn in_grid(self, tx: int, ty: int) -> bool {
        0 <= tx < self.tiles_x() && 0 <= ty < self.tiles_y()
    }

    /// The tile edge is positive and every dirty tile lies in the grid.
    pub open spec fn wf(self) -> bool {
        &&& self.tile_size >= 1
        &&& forall|tx: int, ty: int| #[trigger]
            self.dirty.contains((tx, ty)) ==> self.in_grid(tx, ty)
    }

    /// The tile `(tx, ty)` is dirty.

    pub open spec fn is_dirty(self, tx: int, ty: int) -> bool {
        self.dirty.contains((tx, ty))
    }

    /// The number of dirty tiles.
    pub open spec fn dirty_count(self) -> nat {
        self.dirty.len()
    }

    /// Nothing is dirty.
    pub open spec fn is_clean(self) -> bool {
        !self.full && self.dirty =~= Set::empty()
    }

    /// The pixel lies in the buffer and counts as changed: everything is
    /// dirty, or the pixel's tile is.
    pub open spec fn pixel_dirty(self, px: int, py: int) -> bool {
        &&& 0 <= px < self.width
        &&& 0 <= py < self.height
        &&& (self.full || self.is_dirty(px / (self.tile_size as int), py / (self.tile_size as int)))
    }

    /// The grid of a fresh tracker.
    pub open spec fn fresh(width: u32, height: u32, tile_size: u32) -> TileGrid {
        TileGrid { width, height, tile_size, full: false, dirty: Set::empty() }
    }

    /// The grid with every mark forgotten.

    pub open spec fn cleared(self) -> TileGrid {
        TileGrid { full: false, dirty: Set::empty(), ..self }
    }

    /// The grid with everything dirty.

    pub open spec fn with_full(self) -> TileGrid {
        TileGrid { full: true, ..self }
    }

    /// The tile is dirty afterwards, where it lies in the grid.
    pub open spec fn with_tile(self, tx: int, ty: int) -> TileGrid {
        if self.in_grid(tx, ty) {
            TileGrid { dirty: self.dirty.insert((tx, ty)), ..self }
        } else {
            self
        }
    }

    /// The tiles that the rectangle touches.
    pub open spec fn tiles_under(self, r: Rect) -> Set<(int, int)> {
        let ts = self.tile_size as int;
        Set::new(
            |t: (int, int)|
                (r.x as int) / ts <= t.0 <= (r.x + r.width - 1) / ts && (r.y as int) / ts <= t.1
                    <= (r.y + r.height - 1) / ts,
        )
    }

    /// Marking a pixel: nothing changes while everything is dirty or where
    /// the pixel lies outside the buffer; else its tile becomes dirty.
    pub open spec fn mark_point(self, x: u32, y: u32) -> TileGrid {
        if self.full || x >= self.width || y >= self.height {
            self
        } else {
            self.with_tile((x as int) / (self.tile_size as int), (y as int) / (self.tile_size as int))
        }
    }

    /// Marking a rectangle: nothing changes while everything is dirty or
    /// where no part of the rectangle lies in the buffer; else the tiles
    /// under the part in the buffer become dirty.
    pub open spec fn mark_rect(self, rect: Rect) -> TileGrid {
        if self.full {
            self
        } else {
            match rect.spec_clamp_to(self.width, self.height) {
                None => self,
                Some(r) => TileGrid { dirty: self.dirty.union(self.tiles_under(r)), ..self },
            }
        }
    }
}

/// Each extent is covered by its tiles, and there is at least one tile.
pub proof fn lemma_tile_count_covers(extent: u32, tile_size: u32)
    requires
        tile_size >= 1,
    ensures
        tile_count(extent, tile_size) >= 1,
        tile_count(extent, tile_size) * tile_size >= extent,
        (tile_count(extent, tile_size) - 1) * tile_size < extent || extent == 0,
        tile_count(extent, tile_size) <= u32::MAX,
        extent >= 1 ==> tile_count(extent, tile_size) <= extent,
{
    let e: int = extent as int;
    let t: int = tile_size as int;
    if extent > 0 {
        let n: int = (e + t - 1) / t;
        assert(n * t <= e + t - 1 < n * t + t && 1 <= n <= e) by (nonlinear_arith)
            requires
                n == (e + t - 1) / t,
                t >= 1,
                e >= 1,
        ;
        assert((n - 1) * t == n * t - t) by (nonlinear_arith);
    }
}

/// The tiles of the grid can be counted in `usize`. A buffer whose pixels
/// can be counted has such a grid, whatever the tile edge.
pub open spec fn tiles_countable(width: u32, height: u32, tile_size: u32) -> bool {
    width * height <= usize::MAX || tile_count(width, tile_size) * tile_count(height, tile_size)
        <= usize::MAX
}

/// A grid has no more tiles than the buffer has pixels, or than its longer
/// side where the buffer has none.
pub proof fn lemma_tiles_fit(width: u32, height: u32, tile_size: u32)
    requires
        tile_size >= 1,
        tiles_countable(width, height, tile_size),
    ensures
        tile_count(width, tile_size) * tile_count(height, tile_size) <= usize::MAX,
{
    lemma_tile_count_covers(width, tile_size);
    lemma_tile_count_covers(height, tile_size);
    let a: int = tile_count(width, tile_size);
    let b: int = tile_count(height, tile_size);
    if width * height <= usize::MAX {
        if width >= 1 && height >= 1 {
            crate::grid::lemma_area_grows(a, b, width as int, height as int);
        } else if width == 0 {
            assert(a * b == b) by (nonlinear_arith)
                requires
                    a == 1,
            ;
        } else {
            assert(a * b == a) by (nonlinear_arith)
                requires
                    b == 1,
            ;
        }
    }
}

/// A pixel of the buffer lies in a tile of the grid.
pub proof fn lemma_pixel_tile_in_grid(extent: u32, tile_size: u32, p: int)
    requires
        tile_size >= 1,
        0 <= p < extent,
    ensures
        0 <= p / (tile_size as int) < tile_count(extent, tile_size),
{
    let e: int = extent as int;
    let t: int = tile_size as int;
    assert(0 <= p / t < (e + t - 1) / t) by (nonlinear_arith)
        requires
            t >= 1,
            0 <= p < e,
    ;
}

/// Marking keeps a grid well-formed.
pub proof fn lemma_marks_keep_wf(g: TileGrid, x: u32, y: u32, rect: Rect)
    requires
        g.wf(),
    ensures
        g.mark_point(x, y).wf(),
        g.mark_rect(rect).wf(),
        g.with_full().wf(),
        g.cleared().wf(),
{
    let ts: int = g.tile_size as int;
    match rect.spec_clamp_to(g.width, g.height) {
        Some(r) => {
            lemma_pixel_tile_in_grid(g.width, g.tile_size, r.x + r.width - 1);
            lemma_pixel_tile_in_grid(g.height, g.tile_size, r.y + r.height - 1);
            assert(0 <= (r.x as int) / ts && 0 <= (r.y as int) / ts) by (nonlinear_arith)
                requires
                    ts >= 1,
            ;
        },
        None => {},
    }
}

/// Marking the same pixel twice leaves the grid, and so the number of dirty
/// tiles, as marking it once does.
pub proof fn lemma_mark_point_idempotent(g: TileGrid, x: u32, y: u32)
    ensures
        g.mark_point(x, y).mark_point(x, y) == g.mark_point(x, y),
        g.mark_point(x, y).mark_point(x, y).dirty_count() == g.mark_point(x, y).dirty_count(),
{
    assert(g.mark_point(x, y).mark_point(x, y).dirty =~= g.mark_point(x, y).dirty);
}

/// Marking the same rectangle twice leaves the grid, and so the number of
/// dirty tiles, as marking it once does.
pub proof fn lemma_mark_rect_idempotent(g: TileGrid, rect: Rect)
    ensures
        g.mark_rect(rect).mark_rect(rect) == g.mark_rect(rect),
        g.mark_rect(rect).mark_rect(rect).dirty_count() == g.mark_rect(rect).dirty_count(),
{
    assert(g.mark_rect(rect).mark_rect(rect).dirty =~= g.mark_rect(rect).dirty);
}

/// A marked pixel of the buffer is dirty.
pub proof fn lemma_mark_point_dirties(g: TileGrid, x: u32, y: u32)
    requires
        g.wf(),
        x < g.width,
        y < g.height,
    ensures
        g.mark_point(x, y).pixel_dirty(x as int, y as int),
{
    lemma_pixel_tile_in_grid(g.width, g.tile_size, x as int);
    lemma_pixel_tile_in_grid(g.height, g.tile_size, y as int);
}

/// Every pixel of the buffer that lies in a marked rectangle is dirty.
pub proof fn lemma_mark_rect_dirties(g: TileGrid, rect: Rect, px: int, py: int)
    requires
        g.wf(),
        rect.contains(px, py),
        0 <= px < g.width,
        0 <= py < g.height,
    ensures
        g.mark_rect(rect).pixel_dirty(px, py),
{
    if !g.full {
        let r = rect.spec_clamp_to(g.width, g.height).unwrap();
        let ts: int = g.tile_size as int;
        assert((r.x as int) / ts <= px / ts <= (r.x + r.width - 1) / ts) by (nonlinear_arith)
            requires
                ts >= 1,
                0 <= r.x <= px <= r.x + r.width - 1,
        ;
        assert((r.y as int) / ts <= py / ts <= (r.y + r.height - 1) / ts) by (nonlinear_arith)
            requires
                ts >= 1,
                0 <= r.y <= py <= r.y + r.height - 1,
        ;
        assert(g.tiles_under(r).contains((px / ts, py / ts)));
    }
}

/// A dirty pixel stays dirty through every mark.
pub proof fn lemma_marks_keep_dirty(g: TileGrid, px: int, py: int, x: u32, y: u32, rect: Rect)
    requires
        g.pixel_dirty(px, py),
    ensures
        g.mark_point(x, y).pixel_dirty(px, py),
        g.mark_rect(rect).pixel_dirty(px, py),
        g.with_full().pixel_dirty(px, py),
{
}

proof fn lemma_mask_bits(w: u64, b: u64, c: u64)
    by (bit_vector)
    requires
        b < 64,
        c < 64,
    ensures
        (w | (1u64 << b)) & (1u64 << b) != 0,
        b != c ==> ((w | (1u64 << b)) & (1u64 << c) != 0) == (w & (1u64 << c) != 0),
        0u64 & (1u64 << c) == 0,
{
}

/// The tile counts of a buffer: `ceil(extent / tile_size)` on each axis, and
/// at least one.
pub fn tiles_dim(width: u32, height: u32, tile_size: u32) -> (dim: (u32, u32))
    requires
        tile_size >= 1,
    ensures
        dim.0 == tile_count(width, tile_size),
        dim.1 == tile_count(height, tile_size),
        dim.0 >= 1,
        dim.1 >= 1,
        dim.0 * tile_size >= width,
        dim.1 * tile_size >= height,
{
    proof {
        lemma_tile_count_covers(width, tile_size);
        lemma_tile_count_covers(height, tile_size);
    }
    (tiles_along(width, tile_size), tiles_along(height, tile_size))
}

fn tiles_along(extent: u32, tile_size: u32) -> (n: u32)
    requires
        tile_size >= 1,
    ensures
        n == tile_count(extent, tile_size),
{
    if extent == 0 {
        return 1;
    }
    let q: u32 = extent / tile_size;
    let r: u32 = extent % tile_size;
    proof {
        let e: int = extent as int;
        let t: int = tile_size as int;
        assert((e + t - 1) / t == if e % t == 0 {
            e / t
        } else {
            e / t + 1
        }) by (nonlinear_arith)
            requires
                e >= 1,
                t >= 1,
        ;
        assert(e / t <= e) by (nonlinear_arith)
            requires
                e >= 1,
                t >= 1,
        ;
        assert(e % t != 0 ==> e / t < e) by (nonlinear_arith)
            requires
                e >= 1,
                t >= 1,
        ;
    }
    if r == 0 {
        q
    } else {
        q + 1
    }
}

/// Keeps a list of at most `max_regions` rectangles, and replaces a longer
/// one by its bounding rectangle.
pub fn merge_over_cap(rects: Vec<Rect>, max_regions: usize) -> (out: Vec<Rect>)
    ensures
        out@ == cap_regions(rects@, max_regions),
{
    let mut rects = rects;
    if rects.len() > max_regions {
        let mut merged: Rect = rects[0];
        let mut i: usize = 1;
        assert(rects@.subrange(0, 1).len() == 1);
        while i < rects.len()
            invariant
                1 <= i <= rects@.len(),
                merged == union_all(rects@.subrange(0, i as int)),
            decreases rects@.len() - i,
        {
            assert(rects@.subrange(0, i + 1).drop_last() =~= rects@.subrange(0, i as int));
            merged = merged.union(rects[i]);
            i += 1;
        }
        assert(rects@.subrange(0, i as int) =~= rects@);
        rects.clear();
        rects.push(merged);
        assert(rects@ =~= seq![merged]);
    }
    rects
}

/// A bitmap of dirty tiles over a buffer of `width` by `height` pixels.
#[derive(Debug, Clone)]
pub struct DirtyTiles {
    tile_size: u32,
    tiles_x: u32,
    tiles_y: u32,
    bits: Vec<u64>,
    dirty_tiles: u32,
    full: bool,
    width: u32,
    height: u32,
}

impl View for DirtyTiles {
    type V = TileGrid;

    closed spec fn view(&self) -> TileGrid {
        TileGrid {
            width: self.width,
            height: self.height,
            tile_size: self.tile_size,
            full: self.full,
            dirty: Set::new(
                |t: (int, int)|
                    0 <= t.0 < self.tiles_x && 0 <= t.1 < self.tiles_y && bit_set(
                        self.bits@,
                        t.1 * self.tiles_x + t.0,
                    ),
            ),
        }
    }
}

impl DirtyTiles {
    /// The tracker's fields agree with each other and with its grid.
    pub closed spec fn wf(&self) -> bool {
        &&& self.tile_size >= 1
        &&& self.tiles_x == tile_count(self.width, self.tile_size)
        &&& self.tiles_y == tile_count(self.height, self.tile_size)
        &&& self.tiles_x * self.tiles_y <= usize::MAX
        &&& self.bits@.len() == word_count(self.tiles_x * self.tiles_y)
        &&& self@.dirty.finite()
        &&& self.dirty_tiles == if self@.dirty.len() > u32::MAX {
            u32::MAX as int
        } else {
            self@.dirty.len() as int
        }
    }

    /// The grid of a well-formed tracker is well-formed, and its dirty
    /// tiles are finitely many.
    pub proof fn lemma_view_wf(&self)
        requires
            self.wf(),
        ensures
            self@.wf(),
            self@.dirty.finite(),
    {
    }

    /// A tracker with nothing dirty. A tile size of zero counts as one.
    pub fn new(width: u32, height: u32, tile_size: u32) -> (t: DirtyTiles)
        requires
            tiles_countable(width, height, if tile_size == 0 { 1 } else { tile_size }),
        ensures
            t.wf(),
            t@ == TileGrid::fresh(width, height, if tile_size == 0 { 1 } else { tile_size }),
    {
        let tile_size: u32 = if tile_size == 0 {
            1
        } else {
            tile_size
        };
        let (tiles_x, tiles_y) = tiles_dim(width, height, tile_size);
        proof {
            lemma_tiles_fit(width, height, tile_size);
        }
        let bit_len: usize = (tiles_x as usize) * (tiles_y as usize);
        let words: usize = if bit_len % 64 == 0 {
            bit_len / 64
        } else {
            bit_len / 64 + 1
        };
        let bits: Vec<u64> = vec![0u64; words];
        let t = DirtyTiles {
            tile_size,
            tiles_x,
            tiles_y,
            bits,
            dirty_tiles: 0,
            full: false,
            width,
            height,
        };
        proof {
            t.lemma_zero_bits_clean();
        }
        t
    }

    /// Takes a new buffer size, forgets the tile bits and marks everything
    /// dirty.
    pub fn resize(&mut self, width: u32, height: u32)
        requires
            old(self).wf(),
            tiles_countable(width, height, old(self)@.tile_size),
        ensures
            final(self).wf(),
            final(self)@ == TileGrid::fresh(width, height, old(self)@.tile_size).with_full(),
    {
        self.width = width;
        self.height = height;
        let (tiles_x, tiles_y) = tiles_dim(width, height, self.tile_size);
        proof {
            lemma_tiles_fit(width, height, self.tile_size);
        }
        self.tiles_x = tiles_x;
        self.tiles_y = tiles_y;
        let bit_len: usize = (tiles_x as usize) * (tiles_y as usize);
        let words: usize = if bit_len % 64 == 0 {
            bit_len / 64
        } else {
            bit_len / 64 + 1
        };
        self.bits.clear();
        self.bits.resize(words, 0);
        self.dirty_tiles = 0;
        self.full = true;
        proof {
            self.lemma_zero_bits_clean();
        }
    }

    /// Marks the whole buffer dirty.
    pub fn mark_full(&mut self)
        requires
            old(self).wf(),
        ensures
            final(self).wf(),
            final(self)@ == old(self)@.with_full(),
    {
        self.full = true;
    }

    /// Marks the tiles under the part of `rect` that lies in the buffer.
    pub fn mark_rect(&mut self, rect: Rect)
        requires
            old(self).wf(),
        ensures
            final(self).wf(),
            final(self)@ == old(self)@.mark_rect(rect),
    {
        if self.full {
            return ;
        }
        let rect = match rect.clamp_to(self.width, self.height) {
            Some(r) => r,
            None => {
                return ;
            },
        };
        let tile: u32 = self.tile_size;
        let x0: u32 = rect.x / tile;
        let y0: u32 = rect.y / tile;
        let x1: u32 = (rect.x + rect.width - 1) / tile;
        let y1: u32 = (rect.y + rect.height - 1) / tile;
        proof {
            lemma_pixel_tile_in_grid(self.width, tile, rect.x + rect.width - 1);
            lemma_pixel_tile_in_grid(self.height, tile, rect.y + rect.height - 1);
            let t: int = tile as int;
            assert((rect.x as int) / t <= (rect.x + rect.width - 1) / t && (rect.y as int) / t
                <= (rect.y + rect.height - 1) / t) by (nonlinear_arith)
                requires
                    t >= 1,
                    rect.width >= 1,
                    rect.height >= 1,
            ;
        }
        let ghost before = self@;
        let mut ty: u32 = y0;
        while ty <= y1
            invariant
                self.wf(),
                y0 <= ty <= y1 + 1,
                x0 <= x1 < self@.tiles_x(),
                y1 < self@.tiles_y(),
                self@.width == before.width,
                self@.height == before.height,
                self@.tile_size == before.tile_size,
                self@.full == before.full,
                self@.dirty =~= before.dirty.union(
                    Set::new(|t: (int, int)| x0 <= t.0 <= x1 && y0 <= t.1 < ty),
                ),
            decreases y1 + 1 - ty,
        {
            let mut tx: u32 = x0;
            while tx <= x1
                invariant
                    self.wf(),
                    y0 <= ty <= y1,
                    x0 <= tx <= x1 + 1,
                    x1 < self@.tiles_x(),
                    y1 < self@.tiles_y(),
                    self@.width == before.width,
                    self@.height == before.height,
                    self@.tile_size == before.tile_size,
                    self@.full == before.full,
                    self@.dirty =~= before.dirty.union(
                        Set::new(
                            |t: (int, int)|
                                x0 <= t.0 <= x1 && (y0 <= t.1 < ty || (t.1 == ty && t.0 < tx)),
                        ),
                    ),
                decreases x1 + 1 - tx,
            {
                self.set_tile(tx, ty);
                tx += 1;
            }
            ty += 1;
        }
        assert(self@.dirty =~= before.dirty.union(before.tiles_under(rect)));
    }

    /// Marks the tile of the pixel `(x, y)`, where the pixel lies in the
    /// buffer.
    pub fn mark_point(&mut self, x: u32, y: u32)
        requires
            old(self).wf(),
        ensures
            final(self).wf(),
            final(self)@ == old(self)@.mark_point(x, y),
    {
        if self.full || x >= self.width || y >= self.height {
            return ;
        }
        let tx: u32 = x / self.tile_size;
        let ty: u32 = y / self.tile_size;
        self.set_tile(tx, ty);
    }

    /// The runs of dirty tiles in row `ty`, from left to right.
    pub fn row_runs(&self, ty: u32) -> (runs: Vec<(u32, u32)>)
        requires
            self.wf(),
            ty < self@.tiles_y(),
        ensures
            self@.is_run_list(runs@, ty as int),
    {
        let ghost g = self@;
        let nx: u32 = self.tiles_x;
        let mut runs: Vec<(u32, u32)> = Vec::new();
        let mut tx: u32 = 0;
        while tx < nx
            invariant
                self.wf(),
                g == self@,
                nx == g.tiles_x(),
                ty < g.tiles_y(),
                tx <= nx,
                !g.is_dirty(tx - 1, ty as int) || !g.is_dirty(tx as int, ty as int),
                forall|j: int|
                    0 <= j < runs@.len() ==> g.is_run(
                        ty as int,
                        (#[trigger] runs@[j]).0 as int,
                        runs@[j].1 as int,
                    ) && runs@[j].1 <= tx,
                forall|j: int, l: int|
                    0 <= j < l < runs@.len() ==> (#[trigger] runs@[j]).0 < (#[trigger] runs@[l]).0,
                forall|t: int|
                    t < tx && #[trigger] g.is_dirty(t, ty as int) ==> exists|j: int|
                        0 <= j < runs@.len() && (#[trigger] runs@[j]).0 <= t < runs@[j].1,
            decreases nx - tx,
        {
            if !self.is_tile_set(tx, ty) {
                tx += 1;
                continue ;
            }
            let start: u32 = tx;
            tx += 1;
            while tx < nx && self.is_tile_set(tx, ty)
                invariant
                    self.wf(),
                    g == self@,
                    nx == g.tiles_x(),
                    ty < g.tiles_y(),
                    start < tx <= nx,
                    forall|t: int| start <= t < tx ==> #[trigger] g.is_dirty(t, ty as int),
                decreases nx - tx,
            {
                tx += 1;
            }
            let end: u32 = tx;
            proof {
                assert(!g.is_dirty(end as int, ty as int));
                assert(g.is_run(ty as int, start as int, end as int));
            }
            let ghost before = runs@;
            runs.push((start, end));
            proof {
                assert(runs@[before.len() as int] == (start, end));
                assert forall|t: int| t < tx && #[trigger] g.is_dirty(t, ty as int) implies exists|
                    j: int,
                |
                    0 <= j < runs@.len() && (#[trigger] runs@[j]).0 <= t < runs@[j].1 by {
                    if t < start {
                        let j: int = choose|j: int|
                            0 <= j < before.len() && (#[trigger] before[j]).0 <= t < before[j].1;
                        assert(runs@[j] == before[j]);
                    } else {
                        assert(runs@[before.len() as int].0 <= t < runs@[before.len() as int].1);
                    }
                }
            }
        }
        runs
    }

    /// The blocks of dirty tiles, in the order of a sweep from the top row to
    /// the bottom row.
    pub fn dirty_blocks(&self) -> (blocks: Vec<TileSpan>)
        requires
            self.wf(),
        ensures
            self@.is_block_list(blocks@),
    {
        let ghost g = self@;
        let ny: u32 = self.tiles_y;
        let mut out: Vec<TileSpan> = Vec::new();
        let mut open: Vec<TileSpan> = Vec::new();
        let mut ty: u32 = 0;
        while ty < ny
            invariant
                self.wf(),
                g == self@,
                g.wf(),
                ny == g.tiles_y(),
                ty <= ny,
                g.closed_before(out@, ty as int),
                g.open_at(open@, ty as int),
                g.covered_above(out@, open@, ty as int),
            decreases ny - ty,
        {
            let runs: Vec<(u32, u32)> = self.row_runs(ty);
            let ghost before = out@;
            let next: Vec<TileSpan> = merge_row(&open, &runs, ty, &mut out, Ghost(g));
            proof {
                lemma_row_covered(g, before, out@, open@, next@, ty);
            }
            open = next;
            ty += 1;
        }
        let ghost closed = out@;
        let mut k: usize = 0;
        while k < open.len()
            invariant
                k <= open@.len(),
                out@ == closed + open@.subrange(0, k as int),
            decreases open@.len() - k,
        {
            out.push(open[k]);
            k += 1;
            assert(out@ =~= closed + open@.subrange(0, k as int));
        }
        proof {
            assert(open@.subrange(0, k as int) =~= open@);
            lemma_sweep_done(g, closed, open@, out@);
        }
        out
    }

    /// The pixels of a span of tiles, cut at the buffer's right and bottom
    /// edges.
    pub fn span_rect(&self, s: TileSpan) -> (r: Rect)
        requires
            self.wf(),
            self@.width > 0,
            self@.height > 0,
            s.x0 < s.x1 <= self@.tiles_x(),
            s.y0 < s.y1 <= self@.tiles_y(),
        ensures
            r == self@.span_rect(s),
            r.is_area(),
            r.within(self@.width, self@.height),
    {
        proof {
            lemma_span_rect(self@, s);
            let ts: int = self.tile_size as int;
            assert(s.x1 * ts <= 0xffff_ffff * 0xffff_ffff && s.y1 * ts <= 0xffff_ffff
                * 0xffff_ffff) by (nonlinear_arith)
                requires
                    0 <= ts <= 0xffff_ffff,
                    0 <= s.x1 <= 0xffff_ffff,
                    0 <= s.y1 <= 0xffff_ffff,
            ;
        }
        let ts: u64 = self.tile_size as u64;
        let left: u64 = (s.x0 as u64) * ts;
        let top: u64 = (s.y0 as u64) * ts;
        let right: u64 = (s.x1 as u64) * ts;
        let bottom: u64 = (s.y1 as u64) * ts;
        let right: u64 = if right < self.width as u64 {
            right
        } else {
            self.width as u64
        };
        let bottom: u64 = if bottom < self.height as u64 {
            bottom
        } else {
            self.height as u64
        };
        Rect {
            x: left as u32,
            y: top as u32,
            width: (right - left) as u32,
            height: (bottom - top) as u32,
        }
    }

    /// Hands out the dirty regions and forgets every mark.
    ///
    /// A buffer without pixels has no region. Where everything is dirty, the
    /// whole buffer is the one region. Else the regions are the rectangles of
    /// the blocks of dirty tiles, in the order of a sweep; more than
    /// `max_regions` of them give way to their bounding rectangle.
    pub fn take_regions(&mut self, max_regions: usize) -> (regions: Vec<Rect>)
        requires
            old(self).wf(),
        ensures
            final(self).wf(),
            final(self)@ == old(self)@.cleared(),
            old(self)@.drains_to(max_regions, regions@),
            regions@.len() <= max_regions || regions@.len() == 1,
            old(self)@.is_clean() ==> regions@.len() == 0,
            old(self)@.full && old(self)@.width > 0 && old(self)@.height > 0 ==> regions@
                =~= seq![old(self)@.full_rect()],
            regions_inside(regions@, old(self)@.width, old(self)@.height),
            old(self)@.covered_by(regions@),
    {
        let ghost g = self@;
        if self.width == 0 || self.height == 0 {
            self.clear();
            return Vec::new();
        }
        if self.full {
            let whole = Rect { x: 0, y: 0, width: self.width, height: self.height };
            self.clear();
            let mut regions: Vec<Rect> = Vec::new();
            regions.push(whole);
            proof {
                assert(regions@ =~= seq![g.full_rect()]);
                lemma_drain_covers(g, max_regions, regions@);
            }
            return regions;
        }
        if self.dirty_tiles == 0 {
            proof {
                g.dirty.lemma_len0_is_empty();
                let none: Seq<TileSpan> = Seq::empty();
                assert(g.is_block_list(none));
                assert(g.span_rects(none) =~= Seq::empty());
            }
            let regions: Vec<Rect> = Vec::new();
            proof {
                assert(regions@ =~= cap_regions(g.span_rects(Seq::empty()), max_regions));
                lemma_drain_covers(g, max_regions, regions@);
            }
            return regions;
        }
        let blocks: Vec<TileSpan> = self.dirty_blocks();
        let rects: Vec<Rect> = self.block_rects(&blocks);
        let regions: Vec<Rect> = merge_over_cap(rects, max_regions);
        proof {
            assert(g.is_block_list(blocks@));
            lemma_drain_covers(g, max_regions, regions@);
            if g.is_clean() {
                crate::sweep::lemma_clean_drains_to_nothing(g, max_regions, regions@);
            }
        }
        self.clear();
        regions
    }

    /// The rectangles of a list of blocks.
    fn block_rects(&self, blocks: &Vec<TileSpan>) -> (rects: Vec<Rect>)
        requires
            self.wf(),
            self@.width > 0,
            self@.height > 0,
            self@.is_block_list(blocks@),
        ensures
            rects@ == self@.span_rects(blocks@),
    {
        let mut rects: Vec<Rect> = Vec::new();
        let mut i: usize = 0;
        while i < blocks.len()
            invariant
                self.wf(),
                self@.width > 0,
                self@.height > 0,
                self@.is_block_list(blocks@),
                i <= blocks@.len(),
                rects@ == self@.span_rects(blocks@.subrange(0, i as int)),
            decreases blocks@.len() - i,
        {
            proof {
                lemma_block_has_dirty_tile(self@, blocks@[i as int]);
            }
            let r: Rect = self.span_rect(blocks[i]);
            rects.push(r);
            i += 1;
            assert(rects@ =~= self@.span_rects(blocks@.subrange(0, i as int)));
        }
        assert(blocks@.subrange(0, i as int) =~= blocks@);
        rects
    }

    /// Forgets every mark.
    pub fn clear(&mut self)
        requires
            old(self).wf(),
        ensures
            final(self).wf(),
            final(self)@ == old(self)@.cleared(),
    {
        let n: usize = self.bits.len();
        let mut i: usize = 0;
        while i < n
            invariant
                i <= n,
                n == self.bits@.len(),
                self.tile_size == old(self).tile_size,
                self.tiles_x == old(self).tiles_x,
                self.tiles_y == old(self).tiles_y,
                self.width == old(self).width,
                self.height == old(self).height,
                forall|k: int| 0 <= k < i ==> self.bits@[k] == 0,
            decreases n - i,
        {
            self.bits[i] = 0;
            i += 1;
        }
        self.dirty_tiles = 0;
        self.full = false;
        proof {
            self.lemma_zero_bits_clean();
        }
    }

    /// Sets the bit of tile `(tx, ty)`, where the tile lies in the grid.
    pub fn set_tile(&mut self, tx: u32, ty: u32)
        requires
            old(self).wf(),
        ensures
            final(self).wf(),
            final(self)@ == old(self)@.with_tile(tx as int, ty as int),
    {
        if tx >= self.tiles_x || ty >= self.tiles_y {
            return ;
        }
        proof {
            lemma_cell_index_in_range(self.tiles_x as int, self.tiles_y as int, tx as int, ty as int);
        }
        let tile_index: usize = (ty as usize) * (self.tiles_x as usize) + (tx as usize);
        let word: usize = tile_index / 64;
        let bit: u64 = (tile_index % 64) as u64;
        let mask: u64 = 1u64 << bit;
        let current: u64 = self.bits[word];
        if (current & mask) == 0 {
            let ghost before = *self;
            self.bits[word] = current | mask;
            self.dirty_tiles = self.dirty_tiles.saturating_add(1);
            proof {
                let nx: int = self.tiles_x as int;
                assert forall|t: (int, int)|
                    self@.dirty.contains(t) == before@.dirty.insert((tx as int, ty as int)).contains(
                        t,
                    ) by {
                    if 0 <= t.0 < self.tiles_x && 0 <= t.1 < self.tiles_y {
                        lemma_cell_index_in_range(nx, self.tiles_y as int, t.0, t.1);
                        let i: int = t.1 * nx + t.0;
                        if i == tile_index {
                            lemma_cell_index_injective(nx, t.0, t.1, tx as int, ty as int);
                        }
                        lemma_mask_bits(current, bit, (i % 64) as u64);
                    }
                }
                assert(self@.dirty =~= before@.dirty.insert((tx as int, ty as int)));
                assert(!before@.dirty.contains((tx as int, ty as int)));
            }
        } else {
            proof {
                assert(self@.dirty.contains((tx as int, ty as int)));
                assert(self@.dirty.insert((tx as int, ty as int)) =~= self@.dirty);
            }
        }
    }

    /// Whether the bit of tile `(tx, ty)` is set.
    pub fn is_tile_set(&self, tx: u32, ty: u32) -> (set: bool)
        requires
            self.wf(),
            self@.in_grid(tx as int, ty as int),
        ensures
            set == self@.is_dirty(tx as int, ty as int),
    {
        proof {
            lemma_cell_index_in_range(self.tiles_x as int, self.tiles_y as int, tx as int, ty as int);
        }
        let tile_index: usize = (ty as usize) * (self.tiles_x as usize) + (tx as usize);
        let word: usize = tile_index / 64;
        let bit: u64 = (tile_index % 64) as u64;
        (self.bits[word] & (1u64 << bit)) != 0
    }

    /// The number of dirty tiles, held at `u32::MAX`.
    pub fn dirty_tile_count(&self) -> (n: u32)
        requires
            self.wf(),
        ensures
            n == if self@.dirty_count() > u32::MAX {
                u32::MAX as int
            } else {
                self@.dirty_count() as int
            },
    {
        self.dirty_tiles
    }

    /// Whether the whole buffer is marked dirty.
    pub fn is_full(&self) -> (full: bool)
        ensures
            full == self@.full,
    {
        self.full
    }

    /// The buffer size that the tracker was last given.
    pub fn size(&self) -> (size: (u32, u32))
        ensures
            size.0 == self@.width,
            size.1 == self@.height,
    {
        (self.width, self.height)
    }

    /// The tile edge in pixels.
    pub fn tile_size(&self) -> (tile_size: u32)
        ensures
            tile_size == self@.tile_size,
    {
        self.tile_size
    }

    proof fn lemma_zero_bits_clean(&self)
        requires
            self.bits@.len() == word_count(self.tiles_x * self.tiles_y),
            forall|i: int| 0 <= i < self.bits@.len() ==> self.bits@[i] == 0,
        ensures
            self@.dirty =~= Set::empty(),
    {
        assert forall|t: (int, int)| !self@.dirty.contains(t) by {
            if 0 <= t.0 < self.tiles_x && 0 <= t.1 < self.tiles_y {
                lemma_cell_index_in_range(self.tiles_x as int, self.tiles_y as int, t.0, t.1);
                let i: int = t.1 * self.tiles_x + t.0;
                lemma_mask_bits(0, 0, (i % 64) as u64);
            }
        }
    }
}

} // verus!
