//! Runs, blocks and the order in which a sweep hands them out.
//!
//! A run is a maximal horizontal stretch of dirty tiles in one tile row. A
//! block is a maximal vertical stack of equal runs. The blocks of a grid are
//! disjoint, every dirty tile lies in exactly one of them, and a sweep emits
//! them ordered by the row below their last row, then by their first column.

use vstd::prelude::*;
use crate::dirty::TileGrid;
use crate::rect::Rect;

verus! {

/// A rectangle of tiles: the columns `x0..x1` of the rows `y0..y1`.
#[derive(Debug, Copy, Clone, PartialEq, Eq, Structural)]
pub struct TileSpan {
    pub x0: u32,
    pub x1: u32,
    pub y0: u32,
    pub y1: u32,
}

impl TileSpan {
    /// The tile `(tx, ty)` lies in the span.
    pub open spec fn holds(self, tx: int, ty: int) -> bool {
        self.x0 <= tx < self.x1 && self.y0 <= ty < self.y1
    }

    /// The span with one more row below.
    pub open spec fn grown(self) -> TileSpan {
        TileSpan { y1: (self.y1 + 1) as u32, ..self }
    }

    /// The order of a sweep: by the row at which the span ends, then by its
    /// first column.
    pub open spec fn sweeps_before(self, other: TileSpan) -> bool {
        self.y1 < other.y1 || (self.y1 == other.y1 && self.x0 < other.x0)
    }
}

impl TileGrid {
    /// The columns `x0..x1` of row `ty` are dirty, and the tiles left and
    /// right of them are not.
    pub open spec fn is_run(self, ty: int, x0: int, x1: int) -> bool {
        &&& 0 <= ty < self.tiles_y()
        &&& 0 <= x0 < x1 <= self.tiles_x()
        &&& forall|tx: int| x0 <= tx < x1 ==> #[trigger] self.is_dirty(tx, ty)
        &&& !self.is_dirty(x0 - 1, ty)
        &&& !self.is_dirty(x1, ty)
    }

    /// The same run stands in each row of the span, and not in the row above.
    pub open spec fn is_stack(self, s: TileSpan) -> bool {
        &&& s.y0 < s.y1
        &&& forall|ty: int| s.y0 <= ty < s.y1 ==> #[trigger] self.is_run(ty, s.x0 as int, s.x1 as int)
        &&& !self.is_run(s.y0 - 1, s.x0 as int, s.x1 as int)
    }

    /// A stack that the row below does not continue.
    pub open spec fn is_block(self, s: TileSpan) -> bool {
        self.is_stack(s) && !self.is_run(s.y1 as int, s.x0 as int, s.x1 as int)
    }

    /// The pixels of a span of tiles, cut at the buffer's right and bottom
    /// edges.
    pub open spec fn span_rect(self, s: TileSpan) -> Rect {
        let ts = self.tile_size as int;
        Rect {
            x: (s.x0 * ts) as u32,
            y: (s.y0 * ts) as u32,
            width: (if s.x1 * ts < self.width {
                s.x1 * ts
            } else {
                self.width as int
            } - s.x0 * ts) as u32,
            height: (if s.y1 * ts < self.height {
                s.y1 * ts
            } else {
                self.height as int
            } - s.y0 * ts) as u32,
        }
    }

    /// `blocks` lists the blocks of the grid in the order of a sweep: each
    /// entry is a block, every dirty tile lies in an entry, and the entries
    /// ascend.
    pub open spec fn is_block_list(self, blocks: Seq<TileSpan>) -> bool {
        &&& forall|i: int| 0 <= i < blocks.len() ==> self.is_block(#[trigger] blocks[i])
        &&& forall|tx: int, ty: int| #[trigger]
            self.is_dirty(tx, ty) ==> exists|i: int|
                0 <= i < blocks.len() && (#[trigger] blocks[i]).holds(tx, ty)
        &&& forall|i: int, j: int|
            0 <= i < j < blocks.len() ==> (#[trigger] blocks[i]).sweeps_before(#[trigger] blocks[j])
    }

    /// `runs` lists the runs of row `ty` from left to right.
    pub open spec fn is_run_list(self, runs: Seq<(u32, u32)>, ty: int) -> bool {
        &&& forall|j: int|
            0 <= j < runs.len() ==> self.is_run(ty, (#[trigger] runs[j]).0 as int, runs[j].1 as int)
        &&& forall|j: int, l: int|
            0 <= j < l < runs.len() ==> (#[trigger] runs[j]).0 < (#[trigger] runs[l]).0
        &&& forall|tx: int| #[trigger]
            self.is_dirty(tx, ty) ==> exists|j: int|
                0 <= j < runs.len() && (#[trigger] runs[j]).0 <= tx < runs[j].1
    }

    /// `out` lists, in the order of a sweep, blocks that end above row `ty`.
    pub open spec fn closed_before(self, out: Seq<TileSpan>, ty: int) -> bool {
        &&& forall|i: int|
            0 <= i < out.len() ==> self.is_block(#[trigger] out[i]) && out[i].y1 < ty
        &&& forall|i: int, j: int|
            0 <= i < j < out.len() ==> (#[trigger] out[i]).sweeps_before(#[trigger] out[j])
    }

    /// `open` lists from left to right the stacks that end at row `ty`: one
    /// for each run of the row above.
    pub open spec fn open_at(self, open: Seq<TileSpan>, ty: int) -> bool {
        &&& forall|k: int|
            0 <= k < open.len() ==> self.is_stack(#[trigger] open[k]) && open[k].y1 == ty
        &&& forall|k: int, l: int|
            0 <= k < l < open.len() ==> (#[trigger] open[k]).x0 < (#[trigger] open[l]).x0
        &&& forall|tx: int| #[trigger]
            self.is_dirty(tx, ty - 1) ==> exists|k: int|
                0 <= k < open.len() && (#[trigger] open[k]).x0 <= tx < open[k].x1
    }

    /// Every dirty tile above row `ty` lies in an entry of one of the lists.
    pub open spec fn covered_above(self, out: Seq<TileSpan>, open: Seq<TileSpan>, ty: int) -> bool {
        forall|tx: int, r: int|
            r < ty && #[trigger] self.is_dirty(tx, r) ==> (exists|i: int|
                0 <= i < out.len() && (#[trigger] out[i]).holds(tx, r)) || (exists|k: int|
                0 <= k < open.len() && (#[trigger] open[k]).holds(tx, r))
    }

    /// The rectangles of a list of spans.
    pub open spec fn span_rects(self, blocks: Seq<TileSpan>) -> Seq<Rect> {
        Seq::new(blocks.len(), |i: int| self.span_rect(blocks[i]))
    }

    /// Every dirty pixel lies in one of the regions.
    pub open spec fn covered_by(self, regions: Seq<Rect>) -> bool {
        forall|px: int, py: int| #[trigger]
            self.pixel_dirty(px, py) ==> exists|i: int|
                0 <= i < regions.len() && (#[trigger] regions[i]).contains(px, py)
    }

    /// The rectangle of the whole buffer.
    pub open spec fn full_rect(self) -> Rect {
        Rect { x: 0, y: 0, width: self.width, height: self.height }
    }

    /// `regions` is what draining this grid with the cap `max_regions` hands
    /// out: nothing for a buffer without pixels; the whole buffer where
    /// everything is dirty; else the rectangles of the grid's blocks in the
    /// order of a sweep, or their bounding rectangle where they are more than
    /// the cap.
    pub open spec fn drains_to(self, max_regions: usize, regions: Seq<Rect>) -> bool {
        if self.width == 0 || self.height == 0 {
            regions =~= Seq::empty()
        } else if self.full {
            regions =~= seq![self.full_rect()]
        } else {
            exists|blocks: Seq<TileSpan>| #[trigger]
                self.is_block_list(blocks) && regions == cap_regions(
                    self.span_rects(blocks),
                    max_regions,
                )
        }
    }
}

/// The stack has left the walk of a row: it stands in `out` as a finished
/// block, or in `next` with one more row.
pub open spec fn settled(s: TileSpan, out: Seq<TileSpan>, next: Seq<TileSpan>) -> bool {
    out.contains(s) || next.contains(s.grown())
}

/// Each region is an area inside `[0, width) x [0, height)`.
pub open spec fn regions_inside(regions: Seq<Rect>, width: u32, height: u32) -> bool {
    forall|i: int|
        0 <= i < regions.len() ==> (#[trigger] regions[i]).is_area() && regions[i].within(
            width,
            height,
        )
}

/// The bounding rectangle of a non-empty list, folded from the left.
pub open spec fn union_all(rects: Seq<Rect>) -> Rect
    decreases rects.len(),
{
    if rects.len() <= 1 {
        rects[0]
    } else {
        union_all(rects.drop_last()).spec_union(rects.last())
    }
}

/// A list of more than `max_regions` rectangles gives way to its bounding
/// rectangle.
pub open spec fn cap_regions(rects: Seq<Rect>, max_regions: usize) -> Seq<Rect> {
    if rects.len() > max_regions {
        seq![union_all(rects)]
    } else {
        rects
    }
}

/// Two runs of one row that share a tile are the same run.
pub proof fn lemma_run_unique(g: TileGrid, ty: int, a: int, b: int, c: int, d: int, t: int)
    requires
        g.is_run(ty, a, b),
        g.is_run(ty, c, d),
        a <= t < b,
        c <= t < d,
    ensures
        a == c,
        b == d,
{
    if a < c {
        assert(g.is_dirty(c - 1, ty));
    }
    if c < a {
        assert(g.is_dirty(a - 1, ty));
    }
    if b < d {
        assert(g.is_dirty(b, ty));
    }
    if d < b {
        assert(g.is_dirty(d, ty));
    }
}

/// Two stacks that share a tile and end at the same row are the same stack.
pub proof fn lemma_stack_unique(g: TileGrid, s: TileSpan, u: TileSpan, tx: int, ty: int)
    requires
        g.is_stack(s),
        g.is_stack(u),
        s.holds(tx, ty),
        u.holds(tx, ty),
        s.y1 == u.y1,
    ensures
        s == u,
{
    assert(g.is_run(ty, s.x0 as int, s.x1 as int));
    assert(g.is_run(ty, u.x0 as int, u.x1 as int));
    lemma_run_unique(g, ty, s.x0 as int, s.x1 as int, u.x0 as int, u.x1 as int, tx);
    if s.y0 < u.y0 {
        assert(g.is_run(u.y0 - 1, s.x0 as int, s.x1 as int));
    }
    if u.y0 < s.y0 {
        assert(g.is_run(s.y0 - 1, u.x0 as int, u.x1 as int));
    }
}

/// Two blocks that share a tile are the same block.
pub proof fn lemma_block_unique(g: TileGrid, s: TileSpan, u: TileSpan, tx: int, ty: int)
    requires
        g.is_block(s),
        g.is_block(u),
        s.holds(tx, ty),
        u.holds(tx, ty),
    ensures
        s == u,
{
    assert(g.is_run(ty, s.x0 as int, s.x1 as int));
    assert(g.is_run(ty, u.x0 as int, u.x1 as int));
    lemma_run_unique(g, ty, s.x0 as int, s.x1 as int, u.x0 as int, u.x1 as int, tx);
    if s.y1 < u.y1 {
        assert(g.is_run(s.y1 as int, u.x0 as int, u.x1 as int));
    }
    if u.y1 < s.y1 {
        assert(g.is_run(u.y1 as int, s.x0 as int, s.x1 as int));
    }
    lemma_stack_unique(g, s, u, tx, ty);
}

/// A stack that ends at row `ty` is a block where no run of row `ty` equals
/// its run.
proof fn lemma_stack_closes(g: TileGrid, s: TileSpan, runs: Seq<(u32, u32)>, ty: int, j: int)
    requires
        g.is_stack(s),
        s.y1 == ty,
        g.is_run_list(runs, ty),
        0 <= j <= runs.len(),
        forall|l: int| 0 <= l < j ==> !((#[trigger] runs[l]).0 == s.x0 && runs[l].1 == s.x1),
        j < runs.len() ==> s.x0 < runs[j].0,
    ensures
        g.is_block(s),
{
    if g.is_run(ty, s.x0 as int, s.x1 as int) {
        assert(g.is_dirty(s.x0 as int, ty));
        let l: int = choose|l: int| 0 <= l < runs.len() && (#[trigger] runs[l]).0 <= s.x0 < runs[l].1;
        lemma_run_unique(
            g,
            ty,
            s.x0 as int,
            s.x1 as int,
            runs[l].0 as int,
            runs[l].1 as int,
            s.x0 as int,
        );
        if l >= j {
            if l > j {
                assert(runs[j].0 < runs[l].0);
            }
        }
    }
}

/// A run of row `ty` that equals no stack ending at row `ty` starts a stack.
proof fn lemma_run_opens(g: TileGrid, open: Seq<TileSpan>, ty: int, a: u32, b: u32)
    requires
        g.wf(),
        g.open_at(open, ty),
        g.is_run(ty, a as int, b as int),
        forall|k: int| 0 <= k < open.len() ==> !((#[trigger] open[k]).x0 == a && open[k].x1 == b),
        0 <= ty <= u32::MAX - 1,
    ensures
        g.is_stack(TileSpan { x0: a, x1: b, y0: ty as u32, y1: (ty + 1) as u32 }),
{
    if g.is_run(ty - 1, a as int, b as int) {
        assert(g.is_dirty(a as int, ty - 1));
        let k: int = choose|k: int| 0 <= k < open.len() && (#[trigger] open[k]).x0 <= a < open[k].x1;
        assert(g.is_stack(open[k]));
        assert(g.is_run(ty - 1, open[k].x0 as int, open[k].x1 as int));
        lemma_run_unique(
            g,
            ty - 1,
            a as int,
            b as int,
            open[k].x0 as int,
            open[k].x1 as int,
            a as int,
        );
    }
}

/// A stack that ends at row `ty` and whose run stands in row `ty` too goes
/// on by one row.
proof fn lemma_stack_extends(g: TileGrid, s: TileSpan, ty: int)
    requires
        g.is_stack(s),
        s.y1 == ty,
        g.is_run(ty, s.x0 as int, s.x1 as int),
        ty <= u32::MAX - 1,
    ensures
        g.is_stack(TileSpan { y1: (ty + 1) as u32, ..s }),
{
    let e = TileSpan { y1: (ty + 1) as u32, ..s };
    assert forall|r: int| e.y0 <= r < e.y1 implies #[trigger] g.is_run(
        r,
        e.x0 as int,
        e.x1 as int,
    ) by {
        if r < ty {
            assert(g.is_run(r, s.x0 as int, s.x1 as int));
        }
    }
}

/// One row of the sweep. Walks the stacks that end at row `ty` and the runs
/// of row `ty` from left to right: a stack whose run stands in row `ty` too
/// goes on, every other stack is a finished block and moves to `out`, and a
/// run without a stack starts one.
pub(crate) fn merge_row(
    open: &Vec<TileSpan>,
    runs: &Vec<(u32, u32)>,
    ty: u32,
    out: &mut Vec<TileSpan>,
    Ghost(g): Ghost<TileGrid>,
) -> (next: Vec<TileSpan>)
    requires
        g.wf(),
        ty < g.tiles_y(),
        ty < u32::MAX,
        g.is_run_list(runs@, ty as int),
        g.closed_before(old(out)@, ty as int),
        g.open_at(open@, ty as int),
    ensures
        g.closed_before(final(out)@, ty + 1),
        g.open_at(next@, ty + 1),
        old(out)@.len() <= final(out)@.len(),
        forall|i: int| 0 <= i < old(out)@.len() ==> final(out)@[i] == old(out)@[i],
        forall|k: int|
            0 <= k < open@.len() ==> settled(#[trigger] open@[k], final(out)@, next@),
{
    let mut next: Vec<TileSpan> = Vec::new();
    let mut idx: usize = 0;
    let mut j: usize = 0;
    let ghost before = out@;
    while j < runs.len()
        invariant
            g.wf(),
            ty < g.tiles_y(),
            ty < u32::MAX,
            g.is_run_list(runs@, ty as int),
            g.open_at(open@, ty as int),
            idx <= open@.len(),
            j <= runs@.len(),
            g.closed_before(out@, ty + 1),
            forall|i: int|
                0 <= i < out@.len() ==> (#[trigger] out@[i]).y1 < ty || (idx < open@.len()
                    ==> out@[i].x0 < open@[idx as int].x0),
            before.len() <= out@.len(),
            forall|i: int| 0 <= i < before.len() ==> out@[i] == before[i],
            next@.len() == j,
            forall|m: int|
                0 <= m < j ==> g.is_stack(#[trigger] next@[m]) && next@[m].y1 == ty + 1
                    && next@[m].x0 == runs@[m].0 && next@[m].x1 == runs@[m].1,
            forall|k: int, l: int|
                0 <= k < idx && j <= l < runs@.len() ==> (#[trigger] open@[k]).x0
                    < (#[trigger] runs@[l]).0,
            forall|l: int, k: int|
                0 <= l < j && idx <= k < open@.len() ==> !((#[trigger] runs@[l]).0
                    == (#[trigger] open@[k]).x0 && runs@[l].1 == open@[k].x1),
            forall|k: int|
                0 <= k < idx ==> settled(#[trigger] open@[k], out@, next@),
        decreases runs@.len() - j,
    {
        let a: u32 = runs[j].0;
        let b: u32 = runs[j].1;
        while idx < open.len() && open[idx].x0 < a
            invariant
                g.wf(),
                ty < g.tiles_y(),
                ty < u32::MAX,
                g.is_run_list(runs@, ty as int),
                g.open_at(open@, ty as int),
                idx <= open@.len(),
                j < runs@.len(),
                a == runs@[j as int].0,
                b == runs@[j as int].1,
                g.closed_before(out@, ty + 1),
                forall|i: int|
                    0 <= i < out@.len() ==> (#[trigger] out@[i]).y1 < ty || (idx < open@.len()
                        ==> out@[i].x0 < open@[idx as int].x0),
                before.len() <= out@.len(),
                forall|i: int| 0 <= i < before.len() ==> out@[i] == before[i],
                next@.len() == j,
                forall|k: int, l: int|
                    0 <= k < idx && j <= l < runs@.len() ==> (#[trigger] open@[k]).x0
                        < (#[trigger] runs@[l]).0,
                forall|l: int, k: int|
                    0 <= l < j && idx <= k < open@.len() ==> !((#[trigger] runs@[l]).0
                        == (#[trigger] open@[k]).x0 && runs@[l].1 == open@[k].x1),
                forall|k: int|
                    0 <= k < idx ==> settled(#[trigger] open@[k], out@, next@),
            decreases open@.len() - idx,
        {
            let s: TileSpan = open[idx];
            proof {
                lemma_stack_closes(g, s, runs@, ty as int, j as int);
            }
            let ghost held = out@;
            out.push(s);
            proof {
                lemma_pushed_stays_listed(held, out@, next@, open@, idx as int);
                assert(out@[held.len() as int] == open@[idx as int]);
                assert forall|k: int, l: int|
                    0 <= k < idx + 1 && j <= l < runs@.len() implies (#[trigger] open@[k]).x0
                    < (#[trigger] runs@[l]).0 by {
                    if k == idx && l > j {
                        assert(runs@[j as int].0 < runs@[l].0);
                    }
                }
            }
            idx += 1;
        }
        if idx < open.len() && open[idx].x0 == a && open[idx].x1 == b {
            let s: TileSpan = open[idx];
            let e: TileSpan = TileSpan { x0: s.x0, x1: s.x1, y0: s.y0, y1: ty + 1 };
            proof {
                lemma_stack_extends(g, s, ty as int);
            }
            let ghost grown = next@;
            next.push(e);
            proof {
                lemma_grown_stays_listed(out@, grown, next@, open@, idx as int);
                assert(next@[grown.len() as int] == open@[idx as int].grown());
                assert forall|k: int, l: int|
                    0 <= k < idx + 1 && j + 1 <= l < runs@.len() implies (#[trigger] open@[k]).x0
                    < (#[trigger] runs@[l]).0 by {
                    if k == idx {
                        assert(runs@[j as int].0 < runs@[l].0);
                    }
                }
                assert forall|l: int, k: int|
                    0 <= l < j + 1 && idx + 1 <= k < open@.len() implies !((#[trigger] runs@[l]).0
                    == (#[trigger] open@[k]).x0 && runs@[l].1 == open@[k].x1) by {
                    if l == j {
                        assert(open@[idx as int].x0 < open@[k].x0);
                    }
                }
                if idx + 1 < open@.len() {
                    assert(open@[idx as int].x0 < open@[idx + 1].x0);
                }
            }
            idx += 1;
        } else {
            proof {
                assert forall|k: int| 0 <= k < open@.len() implies !((#[trigger] open@[k]).x0 == a
                    && open@[k].x1 == b) by {
                    if k < idx {
                        assert(open@[k].x0 < runs@[j as int].0);
                    } else if k > idx {
                        assert(open@[idx as int].x0 < open@[k].x0);
                    }
                }
                lemma_run_opens(g, open@, ty as int, a, b);
                assert forall|l: int, k: int|
                    0 <= l < j + 1 && idx <= k < open@.len() implies !((#[trigger] runs@[l]).0
                    == (#[trigger] open@[k]).x0 && runs@[l].1 == open@[k].x1) by {
                    if l == j {
                        assert(!(open@[k].x0 == a && open@[k].x1 == b));
                    }
                }
            }
            let ghost grown = next@;
            next.push(TileSpan { x0: a, x1: b, y0: ty, y1: ty + 1 });
            proof {
                lemma_grown_stays_listed(out@, grown, next@, open@, idx as int);
            }
        }
        j += 1;
    }
    while idx < open.len()
        invariant
            g.wf(),
            ty < g.tiles_y(),
            ty < u32::MAX,
            g.is_run_list(runs@, ty as int),
            g.open_at(open@, ty as int),
            idx <= open@.len(),
            j == runs@.len(),
            g.closed_before(out@, ty + 1),
            forall|i: int|
                0 <= i < out@.len() ==> (#[trigger] out@[i]).y1 < ty || (idx < open@.len()
                    ==> out@[i].x0 < open@[idx as int].x0),
            before.len() <= out@.len(),
            forall|i: int| 0 <= i < before.len() ==> out@[i] == before[i],
            forall|l: int, k: int|
                0 <= l < j && idx <= k < open@.len() ==> !((#[trigger] runs@[l]).0
                    == (#[trigger] open@[k]).x0 && runs@[l].1 == open@[k].x1),
            forall|k: int|
                0 <= k < idx ==> settled(#[trigger] open@[k], out@, next@),
        decreases open@.len() - idx,
    {
        let s: TileSpan = open[idx];
        proof {
            lemma_stack_closes(g, s, runs@, ty as int, j as int);
        }
        let ghost held = out@;
        out.push(s);
        proof {
            lemma_pushed_stays_listed(held, out@, next@, open@, idx as int);
            assert(out@[held.len() as int] == open@[idx as int]);
        }
        idx += 1;
    }
    proof {
        assert forall|tx: int| #[trigger] g.is_dirty(tx, ty + 1 - 1) implies exists|k: int|
            0 <= k < next@.len() && (#[trigger] next@[k]).x0 <= tx < next@[k].x1 by {
            let l: int = choose|l: int|
                0 <= l < runs@.len() && (#[trigger] runs@[l]).0 <= tx < runs@[l].1;
            assert(next@[l].x0 <= tx < next@[l].x1);
        }
        assert forall|k: int, l: int| 0 <= k < l < next@.len() implies (#[trigger] next@[k]).x0 < (
        #[trigger] next@[l]).x0 by {
            assert(runs@[k].0 < runs@[l].0);
        }
    }
    next
}

/// After one row of the sweep the two lists hold every dirty tile above the
/// next row.
pub(crate) proof fn lemma_row_covered(
    g: TileGrid,
    before: Seq<TileSpan>,
    out: Seq<TileSpan>,
    open: Seq<TileSpan>,
    next: Seq<TileSpan>,
    ty: u32,
)
    requires
        ty < u32::MAX,
        g.covered_above(before, open, ty as int),
        g.open_at(open, ty as int),
        g.open_at(next, ty + 1),
        before.len() <= out.len(),
        forall|i: int| 0 <= i < before.len() ==> out[i] == before[i],
        forall|k: int| 0 <= k < open.len() ==> settled(#[trigger] open[k], out, next),
    ensures
        g.covered_above(out, next, ty + 1),
{
    assert forall|tx: int, r: int| r < ty + 1 && #[trigger] g.is_dirty(tx, r) implies (exists|
        i: int,
    |
        0 <= i < out.len() && (#[trigger] out[i]).holds(tx, r)) || (exists|k: int|
        0 <= k < next.len() && (#[trigger] next[k]).holds(tx, r)) by {
        if r < ty {
            if exists|i: int| 0 <= i < before.len() && (#[trigger] before[i]).holds(tx, r) {
                let i: int = choose|i: int|
                    0 <= i < before.len() && (#[trigger] before[i]).holds(tx, r);
                assert(out[i].holds(tx, r));
            } else {
                let k: int = choose|k: int|
                    0 <= k < open.len() && (#[trigger] open[k]).holds(tx, r);
                assert(settled(open[k], out, next));
                if out.contains(open[k]) {
                    let i: int = choose|i: int| 0 <= i < out.len() && out[i] == open[k];
                    assert(out[i].holds(tx, r));
                } else {
                    let m: int = choose|m: int| 0 <= m < next.len() && next[m] == open[k].grown();
                    assert(next[m].holds(tx, r));
                }
            }
        } else {
            assert(g.is_dirty(tx, ty + 1 - 1));
            let m: int = choose|m: int|
                0 <= m < next.len() && (#[trigger] next[m]).x0 <= tx < next[m].x1;
            assert(g.is_stack(next[m]));
            assert(next[m].holds(tx, r));
        }
    }
}

/// At the end of the sweep the finished blocks followed by the stacks that
/// reach the last row are the grid's blocks.
pub(crate) proof fn lemma_sweep_done(
    g: TileGrid,
    out: Seq<TileSpan>,
    open: Seq<TileSpan>,
    all: Seq<TileSpan>,
)
    requires
        g.wf(),
        g.closed_before(out, g.tiles_y()),
        g.open_at(open, g.tiles_y()),
        g.covered_above(out, open, g.tiles_y()),
        all == out + open,
    ensures
        g.is_block_list(all),
{
    assert forall|i: int| 0 <= i < all.len() implies g.is_block(#[trigger] all[i]) by {
        if i >= out.len() {
            assert(all[i] == open[i - out.len()]);
        } else {
            assert(all[i] == out[i]);
        }
    }
    assert forall|tx: int, ty: int| #[trigger] g.is_dirty(tx, ty) implies exists|i: int|
        0 <= i < all.len() && (#[trigger] all[i]).holds(tx, ty) by {
        assert(g.in_grid(tx, ty));
        if exists|i: int| 0 <= i < out.len() && (#[trigger] out[i]).holds(tx, ty) {
            let i: int = choose|i: int| 0 <= i < out.len() && (#[trigger] out[i]).holds(tx, ty);
            assert(all[i].holds(tx, ty));
        } else {
            let k: int = choose|k: int| 0 <= k < open.len() && (#[trigger] open[k]).holds(tx, ty);
            assert(all[out.len() + k] == open[k]);
            assert(all[out.len() + k].holds(tx, ty));
        }
    }
    assert forall|i: int, j: int| 0 <= i < j < all.len() implies (#[trigger] all[i]).sweeps_before(
        #[trigger] all[j],
    ) by {
        if i >= out.len() {
            assert(all[i] == open[i - out.len()]);
            assert(all[j] == open[j - out.len()]);
        } else if j >= out.len() {
            assert(all[i] == out[i]);
            assert(all[j] == open[j - out.len()]);
        } else {
            assert(all[i] == out[i]);
            assert(all[j] == out[j]);
        }
    }
}

/// What was listed before a push onto `out` is listed after it.
proof fn lemma_pushed_stays_listed(
    held: Seq<TileSpan>,
    out: Seq<TileSpan>,
    next: Seq<TileSpan>,
    open: Seq<TileSpan>,
    idx: int,
)
    requires
        0 <= idx < open.len(),
        out == held.push(open[idx]),
        forall|k: int|
            0 <= k < idx ==> settled(#[trigger] open[k], held, next),
    ensures
        forall|k: int|
            0 <= k < idx + 1 ==> settled(#[trigger] open[k], out, next),
{
    assert forall|k: int| 0 <= k < idx + 1 implies settled(#[trigger] open[k], out, next) by {
        if k == idx {
            assert(out[held.len() as int] == open[k]);
        } else if held.contains(open[k]) {
            let i: int = choose|i: int| 0 <= i < held.len() && held[i] == open[k];
            assert(out[i] == open[k]);
        }
    }
}

/// What was listed before a push onto `next` is listed after it.
proof fn lemma_grown_stays_listed(
    out: Seq<TileSpan>,
    grown: Seq<TileSpan>,
    next: Seq<TileSpan>,
    open: Seq<TileSpan>,
    idx: int,
)
    requires
        0 <= idx <= open.len(),
        next.len() == grown.len() + 1,
        forall|m: int| 0 <= m < grown.len() ==> next[m] == grown[m],
        forall|k: int|
            0 <= k < idx ==> settled(#[trigger] open[k], out, grown),
    ensures
        forall|k: int|
            0 <= k < idx ==> settled(#[trigger] open[k], out, next),
{
    assert forall|k: int| 0 <= k < idx implies settled(#[trigger] open[k], out, next) by {
        if !out.contains(open[k]) {
            let m: int = choose|m: int| 0 <= m < grown.len() && grown[m] == open[k].grown();
            assert(next[m] == open[k].grown());
        }
    }
}

/// The rectangle of a span of tiles in the grid is an area inside the
/// buffer, and holds every pixel of the buffer whose tile lies in the span.
pub proof fn lemma_span_rect(g: TileGrid, s: TileSpan)
    requires
        g.tile_size >= 1,
        g.width > 0,
        g.height > 0,
        s.x0 < s.x1 <= g.tiles_x(),
        s.y0 < s.y1 <= g.tiles_y(),
    ensures
        g.span_rect(s).is_area(),
        g.span_rect(s).within(g.width, g.height),
        g.span_rect(s).x == s.x0 * g.tile_size,
        g.span_rect(s).y == s.y0 * g.tile_size,
        s.x0 * g.tile_size < s.x1 * g.tile_size,
        s.y0 * g.tile_size < s.y1 * g.tile_size,
        s.x0 * g.tile_size < g.width,
        s.y0 * g.tile_size < g.height,
        forall|px: int, py: int|
            0 <= px < g.width && 0 <= py < g.height && #[trigger] s.holds(
                px / (g.tile_size as int),
                py / (g.tile_size as int),
            ) ==> g.span_rect(s).contains(px, py),
{
    let ts: int = g.tile_size as int;
    crate::dirty::lemma_tile_count_covers(g.width, g.tile_size);
    crate::dirty::lemma_tile_count_covers(g.height, g.tile_size);
    lemma_span_axis(g.width as int, ts, g.tiles_x(), s.x0 as int, s.x1 as int);
    lemma_span_axis(g.height as int, ts, g.tiles_y(), s.y0 as int, s.y1 as int);
    assert forall|px: int, py: int|
        0 <= px < g.width && 0 <= py < g.height && #[trigger] s.holds(
            px / ts,
            py / ts,
        ) implies g.span_rect(s).contains(px, py) by {
        lemma_pixel_in_span(ts, s.x0 as int, s.x1 as int, px);
        lemma_pixel_in_span(ts, s.y0 as int, s.y1 as int, py);
    }
}

proof fn lemma_span_axis(extent: int, ts: int, n: int, a: int, b: int)
    requires
        ts >= 1,
        extent > 0,
        (n - 1) * ts < extent,
        0 <= a < b <= n,
    ensures
        0 <= a * ts < extent,
        a * ts < b * ts,
{
    assert(a * ts <= (n - 1) * ts && a * ts < b * ts && 0 <= a * ts) by (nonlinear_arith)
        requires
            ts >= 1,
            0 <= a < b <= n,
    ;
}

proof fn lemma_pixel_in_span(ts: int, a: int, b: int, p: int)
    requires
        ts >= 1,
        0 <= p,
        a <= p / ts < b,
    ensures
        a * ts <= p < b * ts,
{
    assert(a * ts <= p < b * ts) by (nonlinear_arith)
        requires
            ts >= 1,
            0 <= p,
            a <= p / ts < b,
    ;
}

/// The bounding rectangle of a list of areas inside the bounds is an area
/// inside the bounds, and covers each entry.
pub proof fn lemma_union_all_bounds(rects: Seq<Rect>, width: u32, height: u32)
    requires
        rects.len() > 0,
        forall|i: int|
            0 <= i < rects.len() ==> (#[trigger] rects[i]).is_area() && rects[i].within(
                width,
                height,
            ),
    ensures
        union_all(rects).is_area(),
        union_all(rects).within(width, height),
        forall|i: int| 0 <= i < rects.len() ==> union_all(rects).covers(#[trigger] rects[i]),
    decreases rects.len(),
{
    if rects.len() > 1 {
        let head = rects.drop_last();
        assert forall|i: int| 0 <= i < head.len() implies (#[trigger] head[i]).is_area()
            && head[i].within(width, height) by {
            assert(head[i] == rects[i]);
        }
        lemma_union_all_bounds(head, width, height);
        assert(rects.last() == rects[rects.len() - 1]);
        assert forall|i: int| 0 <= i < rects.len() implies union_all(rects).covers(
            #[trigger] rects[i],
        ) by {
            if i < head.len() {
                assert(head[i] == rects[i]);
                assert(union_all(head).covers(head[i]));
            }
        }
    }
}

/// The rectangles that a drain hands out are areas inside the buffer, and
/// every dirty pixel lies in one of them.
pub proof fn lemma_drain_covers(g: TileGrid, max_regions: usize, regions: Seq<Rect>)
    requires
        g.wf(),
        g.drains_to(max_regions, regions),
    ensures
        regions_inside(regions, g.width, g.height),
        g.covered_by(regions),
{
    if g.width == 0 || g.height == 0 {
    } else if g.full {
        assert(regions[0] == g.full_rect());
        assert forall|px: int, py: int| #[trigger] g.pixel_dirty(px, py) implies exists|i: int|
            0 <= i < regions.len() && (#[trigger] regions[i]).contains(px, py) by {
            assert(regions[0].contains(px, py));
        }
    } else {
        let blocks: Seq<TileSpan> = choose|blocks: Seq<TileSpan>| #[trigger]
            g.is_block_list(blocks) && regions == cap_regions(g.span_rects(blocks), max_regions);
        let rects = g.span_rects(blocks);
        assert forall|i: int| 0 <= i < rects.len() implies (#[trigger] rects[i]).is_area()
            && rects[i].within(g.width, g.height) by {
            lemma_block_has_dirty_tile(g, blocks[i]);
            lemma_span_rect(g, blocks[i]);
        }
        if rects.len() > 0 {
            lemma_union_all_bounds(rects, g.width, g.height);
        }
        assert forall|px: int, py: int| #[trigger] g.pixel_dirty(px, py) implies exists|i: int|
            0 <= i < regions.len() && (#[trigger] regions[i]).contains(px, py) by {
            let tx: int = px / (g.tile_size as int);
            let ty: int = py / (g.tile_size as int);
            assert(g.is_dirty(tx, ty));
            let i: int = choose|i: int| 0 <= i < blocks.len() && (#[trigger] blocks[i]).holds(tx, ty);
            lemma_block_has_dirty_tile(g, blocks[i]);
            lemma_span_rect(g, blocks[i]);
            assert(rects[i].contains(px, py));
            if rects.len() > max_regions {
                assert(union_all(rects).covers(rects[i]));
                assert(regions[0].contains(px, py));
            } else {
                assert(regions[i].contains(px, py));
            }
        }
    }
}

/// The entries of `list` ascend in the order of a sweep.
pub open spec fn ascends(list: Seq<TileSpan>) -> bool {
    forall|i: int, j: int|
        0 <= i < j < list.len() ==> (#[trigger] list[i]).sweeps_before(#[trigger] list[j])
}

/// Two ascending lists with the same entries are the same list.
pub proof fn lemma_ascending_lists_equal(a: Seq<TileSpan>, b: Seq<TileSpan>)
    requires
        ascends(a),
        ascends(b),
        forall|i: int| 0 <= i < a.len() ==> b.contains(#[trigger] a[i]),
        forall|j: int| 0 <= j < b.len() ==> a.contains(#[trigger] b[j]),
    ensures
        a =~= b,
    decreases a.len(),
{
    if a.len() == 0 {
        if b.len() > 0 {
            assert(a.contains(b[0]));
        }
    } else {
        let la: int = a.len() - 1;
        assert(b.contains(a[la]));
        let j: int = choose|j: int| 0 <= j < b.len() && b[j] == a[la];
        let lb: int = b.len() - 1;
        assert(a.contains(b[lb]));
        let i: int = choose|i: int| 0 <= i < a.len() && a[i] == b[lb];
        if j < lb && i < la {
            assert(b[j].sweeps_before(b[lb]));
            assert(a[i].sweeps_before(a[la]));
        }
        assert(a[la] == b[lb]);
        let ha = a.drop_last();
        let hb = b.drop_last();
        assert forall|k: int| 0 <= k < ha.len() implies hb.contains(#[trigger] ha[k]) by {
            assert(ha[k] == a[k]);
            assert(b.contains(a[k]));
            let m: int = choose|m: int| 0 <= m < b.len() && b[m] == a[k];
            assert(a[k].sweeps_before(a[la]));
            assert(hb[m] == a[k]);
        }
        assert forall|k: int| 0 <= k < hb.len() implies ha.contains(#[trigger] hb[k]) by {
            assert(hb[k] == b[k]);
            assert(a.contains(b[k]));
            let m: int = choose|m: int| 0 <= m < a.len() && a[m] == b[k];
            assert(b[k].sweeps_before(b[lb]));
            assert(ha[m] == b[k]);
        }
        assert(ascends(ha)) by {
            assert forall|p: int, q: int| 0 <= p < q < ha.len() implies (#[trigger] ha[p]).sweeps_before(
                #[trigger] ha[q],
            ) by {
                assert(a[p].sweeps_before(a[q]));
            }
        }
        assert(ascends(hb)) by {
            assert forall|p: int, q: int| 0 <= p < q < hb.len() implies (#[trigger] hb[p]).sweeps_before(
                #[trigger] hb[q],
            ) by {
                assert(b[p].sweeps_before(b[q]));
            }
        }
        lemma_ascending_lists_equal(ha, hb);
        assert(a =~= ha.push(a[la]));
        assert(b =~= hb.push(b[lb]));
    }
}

/// Every block of the grid stands in a list of its blocks.
pub proof fn lemma_block_is_listed(g: TileGrid, blocks: Seq<TileSpan>, s: TileSpan)
    requires
        g.is_block_list(blocks),
        g.is_block(s),
    ensures
        blocks.contains(s),
{
    lemma_block_has_dirty_tile(g, s);
    let i: int = choose|i: int|
        0 <= i < blocks.len() && (#[trigger] blocks[i]).holds(s.x0 as int, s.y0 as int);
    lemma_block_unique(g, s, blocks[i], s.x0 as int, s.y0 as int);
}

/// A grid has one list of blocks: what a drain hands out is a function of
/// the grid and the cap.
pub proof fn lemma_block_list_unique(g: TileGrid, a: Seq<TileSpan>, b: Seq<TileSpan>)
    requires
        g.is_block_list(a),
        g.is_block_list(b),
    ensures
        a == b,
{
    assert forall|i: int| 0 <= i < a.len() implies b.contains(#[trigger] a[i]) by {
        lemma_block_is_listed(g, b, a[i]);
    }
    assert forall|j: int| 0 <= j < b.len() implies a.contains(#[trigger] b[j]) by {
        lemma_block_is_listed(g, a, b[j]);
    }
    lemma_ascending_lists_equal(a, b);
}

/// Two drains of one grid with one cap hand out the same regions.
pub proof fn lemma_drain_unique(g: TileGrid, max_regions: usize, a: Seq<Rect>, b: Seq<Rect>)
    requires
        g.drains_to(max_regions, a),
        g.drains_to(max_regions, b),
    ensures
        a == b,
{
    if g.width == 0 || g.height == 0 || g.full {
        assert(a =~= b);
    } else {
        let ba: Seq<TileSpan> = choose|blocks: Seq<TileSpan>| #[trigger]
            g.is_block_list(blocks) && a == cap_regions(g.span_rects(blocks), max_regions);
        let bb: Seq<TileSpan> = choose|blocks: Seq<TileSpan>| #[trigger]
            g.is_block_list(blocks) && b == cap_regions(g.span_rects(blocks), max_regions);
        lemma_block_list_unique(g, ba, bb);
    }
}

/// A pixel in the rectangle of a span of tiles has its tile in the span.
pub proof fn lemma_span_rect_tiles(g: TileGrid, s: TileSpan, px: int, py: int)
    requires
        g.tile_size >= 1,
        g.width > 0,
        g.height > 0,
        s.x0 < s.x1 <= g.tiles_x(),
        s.y0 < s.y1 <= g.tiles_y(),
        g.span_rect(s).contains(px, py),
    ensures
        0 <= px < g.width,
        0 <= py < g.height,
        s.holds(px / (g.tile_size as int), py / (g.tile_size as int)),
{
    let ts: int = g.tile_size as int;
    lemma_span_rect(g, s);
    lemma_tile_in_span(ts, s.x0 as int, s.x1 as int, px);
    lemma_tile_in_span(ts, s.y0 as int, s.y1 as int, py);
}

proof fn lemma_tile_in_span(ts: int, a: int, b: int, p: int)
    requires
        ts >= 1,
        0 <= a,
        a * ts <= p < b * ts,
    ensures
        a <= p / ts < b,
{
    assert(a <= p / ts < b) by (nonlinear_arith)
        requires
            ts >= 1,
            0 <= a,
            a * ts <= p < b * ts,
    ;
}

/// Every pixel in the rectangle of a block is dirty: below the cap, a drain
/// hands out no pixel of a clean tile.
pub proof fn lemma_block_rect_is_dirty(g: TileGrid, s: TileSpan, px: int, py: int)
    requires
        g.wf(),
        g.width > 0,
        g.height > 0,
        g.is_block(s),
        g.span_rect(s).contains(px, py),
    ensures
        g.pixel_dirty(px, py),
{
    lemma_block_has_dirty_tile(g, s);
    lemma_span_rect_tiles(g, s, px, py);
    let tx: int = px / (g.tile_size as int);
    let ty: int = py / (g.tile_size as int);
    assert(g.is_run(ty, s.x0 as int, s.x1 as int));
    assert(g.is_dirty(tx, ty));
}

/// The rectangles of two entries of a block list share no pixel: below the
/// cap, a drain hands out no pixel twice.
pub proof fn lemma_block_rects_disjoint(
    g: TileGrid,
    blocks: Seq<TileSpan>,
    i: int,
    j: int,
    px: int,
    py: int,
)
    requires
        g.wf(),
        g.width > 0,
        g.height > 0,
        g.is_block_list(blocks),
        0 <= i < blocks.len(),
        0 <= j < blocks.len(),
        g.span_rect(blocks[i]).contains(px, py),
        g.span_rect(blocks[j]).contains(px, py),
    ensures
        i == j,
{
    lemma_block_has_dirty_tile(g, blocks[i]);
    lemma_block_has_dirty_tile(g, blocks[j]);
    lemma_span_rect_tiles(g, blocks[i], px, py);
    lemma_span_rect_tiles(g, blocks[j], px, py);
    let tx: int = px / (g.tile_size as int);
    let ty: int = py / (g.tile_size as int);
    lemma_block_unique(g, blocks[i], blocks[j], tx, ty);
    if i < j {
        assert(blocks[i].sweeps_before(blocks[j]));
    }
    if j < i {
        assert(blocks[j].sweeps_before(blocks[i]));
    }
}

/// A tracker that was given a new size with pixels drains to the whole
/// buffer as one region, whatever the cap and whatever was marked before.
pub proof fn lemma_resized_drains_to_whole(
    width: u32,
    height: u32,
    tile_size: u32,
    max_regions: usize,
    regions: Seq<Rect>,
)
    requires
        width > 0,
        height > 0,
        TileGrid::fresh(width, height, tile_size).with_full().drains_to(max_regions, regions),
    ensures
        regions =~= seq![Rect { x: 0, y: 0, width, height }],
{
}

/// A grid without a dirty tile has no blocks.
pub proof fn lemma_no_dirty_no_blocks(g: TileGrid, blocks: Seq<TileSpan>)
    requires
        g.dirty =~= Set::empty(),
        g.is_block_list(blocks),
    ensures
        blocks =~= Seq::empty(),
{
    if blocks.len() > 0 {
        lemma_block_has_dirty_tile(g, blocks[0]);
    }
}

/// Draining hands out nothing where nothing is dirty: a second drain, with no
/// mark between, comes back empty.
pub proof fn lemma_clean_drains_to_nothing(g: TileGrid, max_regions: usize, regions: Seq<Rect>)
    requires
        g.is_clean(),
        g.drains_to(max_regions, regions),
    ensures
        regions =~= Seq::empty(),
{
    if g.width == 0 || g.height == 0 {
    } else {
        let blocks: Seq<TileSpan> = choose|blocks: Seq<TileSpan>| #[trigger]
            g.is_block_list(blocks) && regions == cap_regions(g.span_rects(blocks), max_regions);
        lemma_no_dirty_no_blocks(g, blocks);
    }
}

/// Where everything is dirty, draining a buffer with pixels hands out the
/// whole buffer as one rectangle, whatever tiles were marked before.
pub proof fn lemma_full_drains_to_whole(g: TileGrid, max_regions: usize, regions: Seq<Rect>)
    requires
        g.width > 0,
        g.height > 0,
        g.with_full().drains_to(max_regions, regions),
    ensures
        regions =~= seq![g.full_rect()],
{
}

/// A block holds a dirty tile: its own first one.
pub proof fn lemma_block_has_dirty_tile(g: TileGrid, s: TileSpan)
    requires
        g.is_stack(s),
    ensures
        s.holds(s.x0 as int, s.y0 as int),
        g.is_dirty(s.x0 as int, s.y0 as int),
        s.x0 < s.x1 <= g.tiles_x(),
        s.y0 < s.y1,
        s.y1 <= g.tiles_y(),
{
    assert(g.is_run(s.y0 as int, s.x0 as int, s.x1 as int));
    assert(g.is_run(s.y1 - 1, s.x0 as int, s.x1 as int));
    assert(g.is_dirty(s.x0 as int, s.y0 as int));
}

} // verus!
