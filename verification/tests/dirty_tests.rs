use pixstage::dirty::{merge_over_cap, tiles_dim};
use pixstage::{DirtyTiles, Rect, TileSpan};

fn rect(x: u32, y: u32, width: u32, height: u32) -> Rect {
    Rect { x, y, width, height }
}

fn covers(regions: &[Rect], x: u32, y: u32) -> bool {
    regions
        .iter()
        .any(|r| r.x <= x && x < r.x + r.width && r.y <= y && y < r.y + r.height)
}

#[test]
fn tiles_cover_the_buffer() {
    let sizes = [0u32, 1, 31, 32, 33, 63, 64, 65, 1000, u32::MAX];
    let tiles = [1u32, 2, 31, 32, 33, 1000, u32::MAX];
    for &w in &sizes {
        for &h in &sizes {
            for &t in &tiles {
                let (tx, ty) = tiles_dim(w, h, t);
                assert!(tx >= 1 && ty >= 1);
                assert!(tx as u64 * t as u64 >= w as u64);
                assert!(ty as u64 * t as u64 >= h as u64);
            }
        }
    }
}

#[test]
fn tiles_dim_rounds_up() {
    assert_eq!(tiles_dim(0, 0, 32), (1, 1));
    assert_eq!(tiles_dim(1, 32, 32), (1, 1));
    assert_eq!(tiles_dim(33, 64, 32), (2, 2));
    assert_eq!(tiles_dim(65, 100, 32), (3, 4));
    assert_eq!(tiles_dim(u32::MAX, 7, 1), (u32::MAX, 7));
    assert_eq!(tiles_dim(u32::MAX, u32::MAX, 32), (1 << 27, 1 << 27));
}

#[test]
fn new_tracker_is_clean() {
    let mut t = DirtyTiles::new(100, 50, 32);
    assert_eq!(t.size(), (100, 50));
    assert_eq!(t.tile_size(), 32);
    assert!(!t.is_full());
    assert_eq!(t.dirty_tile_count(), 0);
    assert!(t.take_regions(8).is_empty());
}

#[test]
fn tile_size_zero_counts_as_one() {
    let mut t = DirtyTiles::new(3, 2, 0);
    assert_eq!(t.tile_size(), 1);
    t.mark_point(2, 1);
    assert_eq!(t.take_regions(8), vec![rect(2, 1, 1, 1)]);
}

#[test]
fn marking_a_pixel_twice_counts_once() {
    let mut t = DirtyTiles::new(128, 128, 32);
    t.mark_point(40, 70);
    let once = t.dirty_tile_count();
    t.mark_point(40, 70);
    assert_eq!(once, 1);
    assert_eq!(t.dirty_tile_count(), once);
    t.mark_point(41, 71);
    assert_eq!(t.dirty_tile_count(), once);
}

#[test]
fn marking_a_rect_twice_counts_once() {
    let mut t = DirtyTiles::new(128, 128, 32);
    t.mark_rect(rect(30, 30, 40, 10));
    let once = t.dirty_tile_count();
    t.mark_rect(rect(30, 30, 40, 10));
    assert_eq!(once, 6);
    assert_eq!(t.dirty_tile_count(), once);
}

#[test]
fn marks_outside_the_buffer_are_ignored() {
    let mut t = DirtyTiles::new(64, 64, 32);
    t.mark_point(64, 0);
    t.mark_point(0, 64);
    t.mark_rect(rect(64, 64, 10, 10));
    t.mark_rect(rect(10, 10, 0, 5));
    assert_eq!(t.dirty_tile_count(), 0);
    assert!(t.take_regions(8).is_empty());
}

#[test]
fn marks_while_full_change_nothing() {
    let mut t = DirtyTiles::new(64, 64, 32);
    t.mark_full();
    t.mark_point(1, 1);
    t.mark_rect(rect(0, 0, 64, 64));
    assert_eq!(t.dirty_tile_count(), 0);
    assert!(t.is_full());
}

#[test]
fn set_tile_and_is_tile_set() {
    let mut t = DirtyTiles::new(96, 64, 32);
    assert!(!t.is_tile_set(2, 1));
    t.set_tile(2, 1);
    assert!(t.is_tile_set(2, 1));
    assert!(!t.is_tile_set(1, 1));
    assert!(!t.is_tile_set(2, 0));
    t.set_tile(3, 0);
    t.set_tile(0, 2);
    assert_eq!(t.dirty_tile_count(), 1);
    t.clear();
    assert!(!t.is_tile_set(2, 1));
    assert_eq!(t.dirty_tile_count(), 0);
}

#[test]
fn a_single_pixel_drains_to_its_tile() {
    let mut t = DirtyTiles::new(128, 128, 32);
    t.mark_point(40, 70);
    assert_eq!(t.take_regions(8), vec![rect(32, 64, 32, 32)]);
}

#[test]
fn a_row_of_tiles_is_one_run() {
    let mut t = DirtyTiles::new(128, 64, 32);
    t.mark_point(0, 0);
    t.mark_point(40, 0);
    t.mark_point(100, 10);
    assert_eq!(
        t.take_regions(8),
        vec![rect(0, 0, 64, 32), rect(96, 0, 32, 32)]
    );
}

#[test]
fn equal_runs_of_adjacent_rows_merge() {
    let mut t = DirtyTiles::new(128, 128, 32);
    t.mark_rect(rect(32, 0, 10, 128));
    assert_eq!(t.take_regions(8), vec![rect(32, 0, 32, 128)]);
}

#[test]
fn unequal_runs_do_not_merge() {
    let mut t = DirtyTiles::new(128, 128, 32);
    t.mark_rect(rect(0, 0, 64, 32));
    t.mark_rect(rect(0, 32, 32, 32));
    assert_eq!(
        t.take_regions(8),
        vec![rect(0, 0, 64, 32), rect(0, 32, 32, 32)]
    );
}

#[test]
fn blocks_come_out_in_sweep_order() {
    let mut t = DirtyTiles::new(160, 128, 32);
    // a tall column on the right, a short one on the left, a late one in the middle
    t.mark_rect(rect(128, 0, 1, 128));
    t.mark_rect(rect(0, 0, 1, 64));
    t.mark_rect(rect(64, 32, 1, 64));
    assert_eq!(
        t.take_regions(8),
        vec![
            rect(0, 0, 32, 64),
            rect(64, 32, 32, 64),
            rect(128, 0, 32, 128),
        ]
    );
}

#[test]
fn a_run_with_the_same_start_but_another_width_starts_anew() {
    let mut t = DirtyTiles::new(128, 64, 32);
    t.mark_rect(rect(0, 0, 33, 1));
    t.mark_rect(rect(0, 32, 1, 1));
    t.mark_rect(rect(96, 32, 1, 1));
    assert_eq!(
        t.take_regions(8),
        vec![rect(0, 0, 64, 32), rect(0, 32, 32, 32), rect(96, 32, 32, 32)]
    );
}

#[test]
fn edge_tiles_are_cut_to_the_buffer() {
    let mut t = DirtyTiles::new(50, 40, 32);
    t.mark_point(49, 39);
    assert_eq!(t.take_regions(8), vec![rect(32, 32, 18, 8)]);
    t.mark_rect(rect(0, 0, 50, 40));
    assert_eq!(t.take_regions(8), vec![rect(0, 0, 50, 40)]);
}

#[test]
fn drain_covers_every_marked_pixel_and_stays_in_bounds() {
    let (w, h) = (200u32, 150u32);
    let mut t = DirtyTiles::new(w, h, 32);
    let points = [(0u32, 0u32), (199, 149), (33, 31), (64, 64), (65, 100), (199, 0), (0, 149)];
    for &(x, y) in &points {
        t.mark_point(x, y);
    }
    let marked = rect(90, 20, 50, 70);
    t.mark_rect(marked);
    let regions = t.take_regions(64);
    for &(x, y) in &points {
        assert!(covers(&regions, x, y));
        // the whole tile of the pixel, as far as it lies in the buffer
        let (tx, ty) = (x / 32 * 32, y / 32 * 32);
        assert!(covers(&regions, tx, ty));
        assert!(covers(&regions, (tx + 31).min(w - 1), (ty + 31).min(h - 1)));
    }
    for y in marked.y..marked.y + marked.height {
        for x in marked.x..marked.x + marked.width {
            assert!(covers(&regions, x, y));
        }
    }
    for r in &regions {
        assert!(r.width > 0 && r.height > 0);
        assert!(r.x + r.width <= w && r.y + r.height <= h);
    }
}

#[test]
fn drain_twice_gives_nothing_the_second_time() {
    let mut t = DirtyTiles::new(128, 128, 32);
    t.mark_point(5, 5);
    t.mark_rect(rect(70, 70, 20, 20));
    assert!(!t.take_regions(8).is_empty());
    assert!(t.take_regions(8).is_empty());
    assert_eq!(t.dirty_tile_count(), 0);
    t.mark_full();
    assert_eq!(t.take_regions(8).len(), 1);
    assert!(t.take_regions(8).is_empty());
    assert!(!t.is_full());
}

#[test]
fn full_drains_to_the_whole_buffer() {
    let mut t = DirtyTiles::new(100, 60, 32);
    t.mark_point(1, 1);
    t.mark_point(99, 59);
    t.mark_full();
    assert_eq!(t.take_regions(0), vec![rect(0, 0, 100, 60)]);
    let mut fresh = DirtyTiles::new(100, 60, 32);
    fresh.mark_full();
    assert_eq!(fresh.take_regions(64), vec![rect(0, 0, 100, 60)]);
}

#[test]
fn a_buffer_without_pixels_has_no_region() {
    let mut t = DirtyTiles::new(0, 10, 32);
    t.mark_full();
    assert!(t.take_regions(8).is_empty());
    assert!(!t.is_full());
    let mut u = DirtyTiles::new(10, 0, 32);
    u.set_tile(0, 0);
    assert!(u.take_regions(8).is_empty());
    assert_eq!(u.dirty_tile_count(), 0);
}

fn checkerboard(t: &mut DirtyTiles, tiles_x: u32, tiles_y: u32) {
    for ty in 0..tiles_y {
        for tx in 0..tiles_x {
            if (tx + ty) % 2 == 0 {
                t.mark_point(tx * 32 + 3, ty * 32 + 3);
            }
        }
    }
}

#[test]
fn more_regions_than_the_cap_collapse_to_their_union() {
    let mut t = DirtyTiles::new(256, 256, 32);
    checkerboard(&mut t, 8, 8);
    let fragments = t.take_regions(64);
    assert_eq!(fragments.len(), 32);
    let mut union = fragments[0];
    for r in &fragments[1..] {
        union = union.union(*r);
    }
    assert_eq!(union, rect(0, 0, 256, 256));

    checkerboard(&mut t, 8, 8);
    assert_eq!(t.take_regions(31), vec![union]);
    checkerboard(&mut t, 8, 8);
    assert_eq!(t.take_regions(32), fragments);
}

#[test]
fn the_union_of_a_capped_drain_is_the_bounding_box() {
    let mut t = DirtyTiles::new(320, 320, 32);
    t.mark_point(40, 70);
    t.mark_point(200, 100);
    t.mark_point(100, 300);
    assert_eq!(t.take_regions(2), vec![rect(32, 64, 192, 256)]);
    t.mark_point(40, 70);
    assert_eq!(t.take_regions(0), vec![rect(32, 64, 32, 32)]);
}

#[test]
fn merge_over_cap_keeps_short_lists() {
    let list = vec![rect(0, 0, 1, 1), rect(5, 5, 2, 2), rect(1, 9, 1, 1)];
    assert_eq!(merge_over_cap(list.clone(), 3), list);
    assert_eq!(merge_over_cap(list.clone(), 2), vec![rect(0, 0, 7, 10)]);
    assert_eq!(merge_over_cap(Vec::new(), 0), Vec::<Rect>::new());
}

#[test]
fn resize_forgets_tiles_and_marks_everything() {
    let mut t = DirtyTiles::new(64, 64, 32);
    t.mark_point(1, 1);
    t.resize(200, 100);
    assert_eq!(t.size(), (200, 100));
    assert!(t.is_full());
    assert_eq!(t.dirty_tile_count(), 0);
    assert_eq!(t.take_regions(8), vec![rect(0, 0, 200, 100)]);
    t.mark_point(199, 99);
    assert_eq!(t.take_regions(8), vec![rect(192, 96, 8, 4)]);
}

#[test]
fn runs_and_blocks_in_tile_units() {
    let mut t = DirtyTiles::new(160, 96, 32);
    t.mark_rect(rect(0, 0, 64, 64));
    t.mark_point(130, 40);
    assert_eq!(t.row_runs(0), vec![(0, 2)]);
    assert_eq!(t.row_runs(1), vec![(0, 2), (4, 5)]);
    assert_eq!(t.row_runs(2), Vec::<(u32, u32)>::new());
    assert_eq!(
        t.dirty_blocks(),
        vec![
            TileSpan { x0: 0, x1: 2, y0: 0, y1: 2 },
            TileSpan { x0: 4, x1: 5, y0: 1, y1: 2 },
        ]
    );
    assert_eq!(t.span_rect(TileSpan { x0: 4, x1: 5, y0: 2, y1: 3 }), rect(128, 64, 32, 32));
}

#[test]
fn a_bitmap_wider_than_one_word() {
    // 70 tiles per row: tile bits cross word boundaries
    let mut t = DirtyTiles::new(70, 3, 1);
    t.mark_rect(rect(60, 0, 10, 1));
    t.mark_rect(rect(0, 1, 5, 1));
    t.mark_point(69, 2);
    assert_eq!(t.dirty_tile_count(), 16);
    assert_eq!(
        t.take_regions(8),
        vec![rect(60, 0, 10, 1), rect(0, 1, 5, 1), rect(69, 2, 1, 1)]
    );
}

/// A plain model of a drain over a grid of booleans: runs per row as pixel
/// rectangles, carried down while the row below repeats them, cut to the
/// buffer at the end.
fn model_drain(grid: &[Vec<bool>], width: u32, height: u32, tile: u32, cap: usize) -> Vec<Rect> {
    let mut out: Vec<Rect> = Vec::new();
    let mut prev: Vec<Rect> = Vec::new();
    for (ty, row) in grid.iter().enumerate() {
        let y = ty as u32 * tile;
        let mut runs: Vec<(u32, u32)> = Vec::new();
        let mut tx = 0usize;
        while tx < row.len() {
            if !row[tx] {
                tx += 1;
                continue;
            }
            let start = tx;
            while tx < row.len() && row[tx] {
                tx += 1;
            }
            runs.push((start as u32 * tile, (tx - start) as u32 * tile));
        }
        let mut next: Vec<Rect> = Vec::new();
        let mut idx = 0usize;
        for (x, w) in runs {
            while idx < prev.len() && prev[idx].x < x {
                out.push(prev[idx]);
                idx += 1;
            }
            if idx < prev.len()
                && prev[idx].x == x
                && prev[idx].width == w
                && prev[idx].y + prev[idx].height == y
            {
                let mut r = prev[idx];
                r.height += tile;
                next.push(r);
                idx += 1;
            } else {
                next.push(rect(x, y, w, tile));
            }
        }
        while idx < prev.len() {
            out.push(prev[idx]);
            idx += 1;
        }
        prev = next;
    }
    out.extend(prev);
    let mut out: Vec<Rect> = out
        .into_iter()
        .filter_map(|r| r.clamp_to(width, height))
        .collect();
    if out.len() > cap {
        let mut merged = out[0];
        for r in &out[1..] {
            merged = merged.union(*r);
        }
        out = vec![merged];
    }
    out
}

#[test]
fn drain_agrees_with_the_model_on_many_grids() {
    let mut seed: u64 = 0x2545_f491_4f6c_dd1d;
    let mut next = move || {
        seed ^= seed << 13;
        seed ^= seed >> 7;
        seed ^= seed << 17;
        seed
    };
    for round in 0..400u32 {
        let tile = [1u32, 3, 8, 32][(next() % 4) as usize];
        let width = 1 + (next() % 70) as u32 * if tile > 3 { 4 } else { 1 };
        let height = 1 + (next() % 40) as u32 * if tile > 3 { 4 } else { 1 };
        let (nx, ny) = tiles_dim(width, height, tile);
        let density = 1 + next() % 6;
        let mut grid = vec![vec![false; nx as usize]; ny as usize];
        let mut t = DirtyTiles::new(width, height, tile);
        for ty in 0..ny {
            for tx in 0..nx {
                if next() % 7 < density {
                    grid[ty as usize][tx as usize] = true;
                    if round % 2 == 0 {
                        t.set_tile(tx, ty);
                    } else {
                        t.mark_point(tx * tile, ty * tile);
                    }
                }
            }
        }
        let dirty = grid.iter().flatten().filter(|&&d| d).count();
        assert_eq!(t.dirty_tile_count() as usize, dirty);
        let cap = (next() % 80) as usize;
        let expected = model_drain(&grid, width, height, tile, cap);
        assert_eq!(t.take_regions(cap), expected);
        assert!(t.take_regions(cap).is_empty());
    }
}

#[test]
fn regions_below_the_cap_share_no_pixel_and_hold_only_dirty_tiles() {
    let (w, h) = (130u32, 100u32);
    let mut t = DirtyTiles::new(w, h, 32);
    let marks = [(0u32, 0u32), (40, 0), (70, 40), (129, 99), (0, 99), (64, 64), (100, 10)];
    let mut dirty = [[false; 5]; 4];
    for &(x, y) in &marks {
        t.mark_point(x, y);
        dirty[(y / 32) as usize][(x / 32) as usize] = true;
    }
    let regions = t.take_regions(64);
    for y in 0..h {
        for x in 0..w {
            let hits = regions
                .iter()
                .filter(|r| r.x <= x && x < r.x + r.width && r.y <= y && y < r.y + r.height)
                .count();
            let expected = if dirty[(y / 32) as usize][(x / 32) as usize] { 1 } else { 0 };
            assert_eq!(hits, expected);
        }
    }
}

#[test]
fn a_huge_buffer_with_huge_tiles_is_tracked() {
    let tile = 1u32 << 31;
    let mut t = DirtyTiles::new(u32::MAX, u32::MAX, tile);
    assert_eq!(tiles_dim(u32::MAX, u32::MAX, tile), (2, 2));
    t.mark_point(u32::MAX - 1, 0);
    assert_eq!(t.dirty_tile_count(), 1);
    assert_eq!(t.take_regions(4), vec![rect(tile, 0, tile - 1, tile)]);
    t.resize(u32::MAX, 7);
    assert_eq!(t.take_regions(0), vec![rect(0, 0, u32::MAX, 7)]);
}

#[test]
fn resize_drains_to_the_whole_buffer_for_every_cap() {
    for cap in [0usize, 1, 2, 64, usize::MAX] {
        let mut t = DirtyTiles::new(64, 64, 32);
        t.mark_point(1, 1);
        t.mark_rect(rect(40, 40, 5, 5));
        t.resize(100, 30);
        assert_eq!(t.take_regions(cap), vec![rect(0, 0, 100, 30)]);
        assert!(t.take_regions(cap).is_empty());
    }
}
