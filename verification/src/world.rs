//! The world: the coarse charge grid, the pending-change log and the cached
//! field grid.
//!
//! The central invariant ties the three together: every cached sample equals
//! the superposition field of the *accounted* charges — the current tiles
//! rolled back by the pending log.  Editing a tile records its accounted
//! value in the log (once per cell), so the invariant is untouched by edits;
//! solving folds the log into the cache and clears it.

use vstd::prelude::*;
use vstd::set_lib::{set_int_range, lemma_int_range, lemma_len_subset};
use crate::field::{
    Sample, sample_val, set_tile, tile_charge, grid_dims, field_at, lemma_field_at_zero,
    lemma_field_at_agree, lemma_set_tile,
};

verus! {

/// A field grid caching one sample per subcell; `ratio` subcells per tile
/// edge.
pub struct FieldGrid {
    pub(crate) ratio: u8,
    pub(crate) grid: Vec<Vec<Sample>>,
}

/// The world containing all information for the simulation.
pub struct World {
    pub(crate) width: u32,
    pub(crate) height: u32,
    pub(crate) tiles: Vec<Vec<i8>>,
    pub(crate) updated_tiles: Vec<(i8, usize, usize)>,
    pub(crate) field: FieldGrid,
}

/// The mathematical state of a `World`.
pub ghost struct WorldView {
    pub width: int,
    pub height: int,
    pub ratio: int,
    pub tiles: Seq<Seq<i8>>,
    pub log: Seq<(i8, usize, usize)>,
    pub samples: Seq<Seq<Sample>>,
}

impl View for World {
    type V = WorldView;

    open(crate) spec fn view(&self) -> WorldView {
        WorldView {
            width: self.width as int,
            height: self.height as int,
            ratio: self.field.ratio as int,
            tiles: self.tiles@.map_values(|row: Vec<i8>| row@),
            log: self.updated_tiles@,
            samples: self.field.grid@.map_values(|row: Vec<Sample>| row@),
        }
    }
}

/// Some pending entry records cell `(x, y)`.
pub open spec fn logged(log: Seq<(i8, usize, usize)>, x: int, y: int) -> bool {
    exists|i: int| 0 <= i < log.len() && (#[trigger] log[i]).1 == x && log[i].2 == y
}

/// Every pending entry refers to an in-bounds cell.
pub open spec fn log_in_bounds(log: Seq<(i8, usize, usize)>, w: int, h: int) -> bool {
    forall|i: int| 0 <= i < log.len() ==> (#[trigger] log[i]).1 < w && log[i].2 < h
}

/// No two pending entries refer to the same cell.
pub open spec fn log_distinct(log: Seq<(i8, usize, usize)>) -> bool {
    forall|i: int, j: int|
        0 <= i < j < log.len() ==> !((#[trigger] log[i]).1 == (#[trigger] log[j]).1 && log[i].2
            == log[j].2)
}

/// The accounted charge grid: the current tiles with every logged cell put
/// back to the value the cached field still accounts for.
pub open spec fn rollback(tiles: Seq<Seq<i8>>, log: Seq<(i8, usize, usize)>) -> Seq<Seq<i8>>
    decreases log.len(),
{
    if log.len() == 0 {
        tiles
    } else {
        rollback(
            set_tile(tiles, log[0].1 as int, log[0].2 as int, log[0].0),
            log.subrange(1, log.len() as int),
        )
    }
}

/// Rolling back keeps the grid rectangular.
pub proof fn lemma_rollback_dims(tiles: Seq<Seq<i8>>, log: Seq<(i8, usize, usize)>, w: int, h: int)
    requires
        grid_dims(tiles, w, h),
        log_in_bounds(log, w, h),
    ensures
        grid_dims(rollback(tiles, log), w, h),
    decreases log.len(),
{
    if log.len() > 0 {
        lemma_set_tile(tiles, w, h, log[0].1 as int, log[0].2 as int, log[0].0);
        lemma_rollback_dims(
            set_tile(tiles, log[0].1 as int, log[0].2 as int, log[0].0),
            log.subrange(1, log.len() as int),
            w,
            h,
        );
    }
}

/// A cell that no entry records keeps its current charge under rollback.
pub proof fn lemma_rollback_unlogged(
    tiles: Seq<Seq<i8>>,
    log: Seq<(i8, usize, usize)>,
    w: int,
    h: int,
    x: int,
    y: int,
)
    requires
        grid_dims(tiles, w, h),
        log_in_bounds(log, w, h),
        0 <= x < w,
        0 <= y < h,
        !logged(log, x, y),
    ensures
        tile_charge(rollback(tiles, log), x, y) == tile_charge(tiles, x, y),
    decreases log.len(),
{
    if log.len() > 0 {
        let e = log[0];
        let rest = log.subrange(1, log.len() as int);
        let t1 = set_tile(tiles, e.1 as int, e.2 as int, e.0);
        lemma_set_tile(tiles, w, h, e.1 as int, e.2 as int, e.0);
        assert(!logged(rest, x, y)) by {
            if logged(rest, x, y) {
                let i = choose|i: int|
                    0 <= i < rest.len() && (#[trigger] rest[i]).1 == x && rest[i].2 == y;
                assert(log[i + 1].1 == x && log[i + 1].2 == y);
            }
        }
        lemma_rollback_unlogged(t1, rest, w, h, x, y);
        assert(!(e.1 == x && e.2 == y));
    }
}

/// A logged cell carries its recorded accounted value under rollback.
pub proof fn lemma_rollback_logged(
    tiles: Seq<Seq<i8>>,
    log: Seq<(i8, usize, usize)>,
    w: int,
    h: int,
    i: int,
)
    requires
        grid_dims(tiles, w, h),
        log_in_bounds(log, w, h),
        log_distinct(log),
        0 <= i < log.len(),
    ensures
        tile_charge(rollback(tiles, log), log[i].1 as int, log[i].2 as int) == log[i].0 as int,
    decreases log.len(),
{
    let e = log[0];
    let rest = log.subrange(1, log.len() as int);
    let t1 = set_tile(tiles, e.1 as int, e.2 as int, e.0);
    lemma_set_tile(tiles, w, h, e.1 as int, e.2 as int, e.0);
    if i == 0 {
        assert(!logged(rest, e.1 as int, e.2 as int)) by {
            if logged(rest, e.1 as int, e.2 as int) {
                let j = choose|j: int|
                    0 <= j < rest.len() && (#[trigger] rest[j]).1 == e.1 && rest[j].2 == e.2;
                assert(log[j + 1].1 == e.1 && log[j + 1].2 == e.2);
            }
        }
        lemma_rollback_unlogged(t1, rest, w, h, e.1 as int, e.2 as int);
    } else {
        assert(rest[i - 1] == log[i]);
        lemma_rollback_logged(t1, rest, w, h, i - 1);
    }
}

/// Pending entries name pairwise-distinct in-bounds cells, so there are at
/// most `w * h` of them.
pub proof fn lemma_log_len_bounded(log: Seq<(i8, usize, usize)>, w: int, h: int)
    requires
        1 <= w,
        1 <= h,
        log_in_bounds(log, w, h),
        log_distinct(log),
    ensures
        log.len() <= w * h,
{
    let idx = Seq::new(log.len(), |i: int| (log[i].2 as int) * w + (log[i].1 as int));
    assert(idx.no_duplicates()) by {
        assert forall|i: int, j: int| 0 <= i < idx.len() && 0 <= j < idx.len() && i != j implies idx[i]
            != idx[j] by {
            let (x1, y1) = (log[i].1 as int, log[i].2 as int);
            let (x2, y2) = (log[j].1 as int, log[j].2 as int);
            assert(!(x1 == x2 && y1 == y2));
            assert(y1 * w + x1 != y2 * w + x2) by (nonlinear_arith)
                requires
                    0 <= x1 < w,
                    0 <= x2 < w,
                    0 <= y1,
                    0 <= y2,
                    !(x1 == x2 && y1 == y2),
            ;
        }
    }
    idx.unique_seq_to_set();
    assert(idx.to_set().subset_of(set_int_range(0, w * h))) by {
        assert forall|v: int| idx.to_set().contains(v) implies set_int_range(0, w * h).contains(
            v,
        ) by {
            let i = choose|i: int| 0 <= i < idx.len() && idx[i] == v;
            let (x, y) = (log[i].1 as int, log[i].2 as int);
            assert(0 <= y * w + x < w * h) by (nonlinear_arith)
                requires
                    0 <= x < w,
                    0 <= y < h,
            ;
        }
    }
    lemma_int_range(0, w * h);
    lemma_len_subset(idx.to_set(), set_int_range(0, w * h));
}

impl WorldView {
    /// Well-formed simulation state: consistent dimensions, a sane log and
    /// the cached-superposition invariant — every sample is exactly the
    /// field of the accounted charges.
    pub open spec fn wf(self) -> bool {
        &&& 1 <= self.width
        &&& 1 <= self.height
        &&& 1 <= self.ratio <= 255
        &&& self.ratio % 2 == 1
        &&& self.width * self.ratio <= 4096
        &&& self.height * self.ratio <= 4096
        &&& grid_dims(self.tiles, self.width, self.height)
        &&& self.samples.len() == self.height * self.ratio
        &&& forall|sy: int|
            0 <= sy < self.samples.len() ==> (#[trigger] self.samples[sy]).len() == self.width
                * self.ratio
        &&& log_in_bounds(self.log, self.width, self.height)
        &&& log_distinct(self.log)
        &&& forall|sx: int, sy: int|
            0 <= sx < self.width * self.ratio && 0 <= sy < self.height * self.ratio
                ==> sample_val(#[trigger] self.samples[sy][sx]) == field_at(
                rollback(self.tiles, self.log),
                self.width,
                self.height,
                self.ratio,
                sx,
                sy,
            )
    }
}

impl World {
    /// Build a world of `width x height` neutral tiles with a zeroed field
    /// grid of `2 * resolution - 1` subcells per tile edge.  The grid sizes
    /// are capped so that all fixed-point arithmetic provably stays in
    /// range; larger worlds must be rejected by the caller.
    pub fn new_empty(width: u32, height: u32, resolution: u8) -> (w: World)
        requires
            1 <= width,
            1 <= height,
            1 <= resolution <= 128,
            width as int * (2 * resolution as int - 1) <= 4096,
            height as int * (2 * resolution as int - 1) <= 4096,
        ensures
            w@.wf(),
            w@.width == width as int,
            w@.height == height as int,
            w@.ratio == 2 * resolution as int - 1,
            forall|x: int, y: int|
                0 <= x < width as int && 0 <= y < height as int ==> tile_charge(w@.tiles, x, y)
                    == 0,
            w@.log.len() == 0,
            forall|sx: int, sy: int|
                0 <= sx < w@.width * w@.ratio && 0 <= sy < w@.height * w@.ratio ==> sample_val(
                    w@.samples[sy][sx],
                ) == (0int, 0int, 0int),
    {
        let ratio: u8 = (2 * (resolution as u16) - 1) as u8;
        let mut tiles: Vec<Vec<i8>> = Vec::new();
        let mut y: usize = 0;
        while y < height as usize
            invariant
                y <= height as usize,
                tiles@.len() == y as int,
                forall|j: int| 0 <= j < y as int ==> (#[trigger] tiles@[j])@.len() == width as int,
                forall|j: int, i: int|
                    0 <= j < y as int && 0 <= i < width as int ==> #[trigger] tiles@[j]@[i]
                        == 0i8,
            decreases height as int - y as int,
        {
            let mut row: Vec<i8> = Vec::new();
            let mut x: usize = 0;
            while x < width as usize
                invariant
                    x <= width as usize,
                    row@.len() == x as int,
                    forall|i: int| 0 <= i < x as int ==> row@[i] == 0i8,
                decreases width as int - x as int,
            {
                row.push(0i8);
                x += 1;
            }
            tiles.push(row);
            y += 1;
        }
        let grid = zero_grid(width, height, ratio);
        let w = World {
            width,
            height,
            tiles,
            updated_tiles: Vec::new(),
            field: FieldGrid { ratio, grid },
        };
        proof {
            assert((2 * resolution as int - 1) % 2 == 1);
            assert(grid_dims(w@.tiles, w@.width, w@.height));
            assert(rollback(w@.tiles, w@.log) == w@.tiles);
            assert forall|sx: int, sy: int|
                0 <= sx < w@.width * w@.ratio && 0 <= sy < w@.height * w@.ratio implies sample_val(
                #[trigger] w@.samples[sy][sx],
            ) == field_at(rollback(w@.tiles, w@.log), w@.width, w@.height, w@.ratio, sx, sy) by {
                lemma_field_at_zero(w@.tiles, w@.width, w@.height, w@.ratio, sx, sy);
            }
        }
        w
    }

    /// True iff `(x, y)` lies inside the charge grid; accepts signed
    /// coordinates so callers can probe outside without wrapping.
    pub fn in_bounds(&self, x: i32, y: i32) -> (r: bool)
        ensures
            r == (0 <= x as int && (x as int) < self@.width && 0 <= y as int && (y as int)
                < self@.height),
    {
        x >= 0 && (x as i64) < (self.width as i64) && y >= 0 && (y as i64) < (self.height as i64)
    }

    /// The resolution the field grid was built with: `(ratio + 1) / 2`.
    pub fn resolution(&self) -> (r: u8)
        ensures
            r as int == (self@.ratio + 1) / 2,
    {
        ((self.field.ratio as u16 + 1) / 2) as u8
    }

    /// Set the charge of tile `(x, y)`.  Returns false and does nothing if
    /// the tile already holds `charge`; otherwise overwrites it, records
    /// the tile's accounted value in the pending log (once per cell) and
    /// returns true.
    pub fn update_tile(&mut self, charge: i8, x: usize, y: usize) -> (changed: bool)
        requires
            old(self)@.wf(),
            (x as int) < old(self)@.width,
            (y as int) < old(self)@.height,
        ensures
            final(self)@.wf(),
            changed == (tile_charge(old(self)@.tiles, x as int, y as int) != charge as int),
            tile_charge(final(self)@.tiles, x as int, y as int) == charge as int,
            final(self)@.width == old(self)@.width,
            final(self)@.height == old(self)@.height,
            final(self)@.ratio == old(self)@.ratio,
            final(self)@.samples == old(self)@.samples,
            changed ==> final(self)@.tiles == set_tile(
                old(self)@.tiles,
                x as int,
                y as int,
                charge,
            ),
            !changed ==> final(self)@ == old(self)@,
            changed && logged(old(self)@.log, x as int, y as int) ==> final(self)@.log == old(
                self,
            )@.log,
            changed && !logged(old(self)@.log, x as int, y as int) ==> final(self)@.log == old(
                self,
            )@.log.push((old(self)@.tiles[y as int][x as int], x, y)),
    {
        let current: i8 = self.tiles[y][x];
        if current != charge {
            let ghost oldv = self@;
            let n = self.updated_tiles.len();
            let mut found = false;
            let mut i: usize = 0;
            while i < n
                invariant
                    n == self.updated_tiles@.len(),
                    i <= n,
                    found ==> logged(self.updated_tiles@, x as int, y as int),
                    !found ==> forall|j: int|
                        0 <= j < i as int ==> !((#[trigger] self.updated_tiles@[j]).1 == x
                            && self.updated_tiles@[j].2 == y),
                decreases n as int - i as int,
            {
                let e = self.updated_tiles[i];
                if e.1 == x && e.2 == y {
                    found = true;
                }
                i += 1;
            }
            assert(found == logged(oldv.log, x as int, y as int));
            if !found {
                self.updated_tiles.push((current, x, y));
            }
            self.tiles[y][x] = charge;
            proof {
                assert(self@.tiles =~~= set_tile(oldv.tiles, x as int, y as int, charge));
                lemma_update_tile_wf(oldv, self@, charge, x, y, found);
            }
            true
        } else {
            false
        }
    }
}

/// Writing one tile while its accounted value stands in the log leaves the
/// accounted grid — and with it the cached-superposition invariant —
/// unchanged.
proof fn lemma_update_tile_wf(
    oldv: WorldView,
    newv: WorldView,
    charge: i8,
    x: usize,
    y: usize,
    was_logged: bool,
)
    requires
        oldv.wf(),
        (x as int) < oldv.width,
        (y as int) < oldv.height,
        was_logged == logged(oldv.log, x as int, y as int),
        newv.width == oldv.width,
        newv.height == oldv.height,
        newv.ratio == oldv.ratio,
        newv.samples == oldv.samples,
        newv.tiles == set_tile(oldv.tiles, x as int, y as int, charge),
        was_logged ==> newv.log == oldv.log,
        !was_logged ==> newv.log == oldv.log.push((oldv.tiles[y as int][x as int], x, y)),
    ensures
        newv.wf(),
{
    let w = oldv.width;
    let h = oldv.height;
    let xi = x as int;
    let yi = y as int;
    lemma_set_tile(oldv.tiles, w, h, xi, yi, charge);
    if !was_logged {
        assert(log_distinct(newv.log)) by {
            assert forall|i: int, j: int| 0 <= i < j < newv.log.len() implies !((#[trigger] newv.log[i]).1
                == (#[trigger] newv.log[j]).1 && newv.log[i].2 == newv.log[j].2) by {
                if j == newv.log.len() - 1 {
                    assert(newv.log[i] == oldv.log[i]);
                    if newv.log[i].1 == x && newv.log[i].2 == y {
                        assert(logged(oldv.log, xi, yi));
                    }
                }
            }
        }
    }
    assert forall|a: int, b: int| 0 <= a < w && 0 <= b < h implies tile_charge(
        rollback(newv.tiles, newv.log),
        a,
        b,
    ) == tile_charge(rollback(oldv.tiles, oldv.log), a, b) by {
        if logged(newv.log, a, b) {
            let i = choose|i: int|
                0 <= i < newv.log.len() && (#[trigger] newv.log[i]).1 == a && newv.log[i].2 == b;
            lemma_rollback_logged(newv.tiles, newv.log, w, h, i);
            if was_logged {
                lemma_rollback_logged(oldv.tiles, oldv.log, w, h, i);
            } else {
                if i < oldv.log.len() {
                    assert(newv.log[i] == oldv.log[i]);
                    lemma_rollback_logged(oldv.tiles, oldv.log, w, h, i);
                } else {
                    assert(a == xi && b == yi);
                    assert(newv.log[i].0 == oldv.tiles[yi][xi]);
                    assert(!logged(oldv.log, xi, yi));
                    lemma_rollback_unlogged(oldv.tiles, oldv.log, w, h, xi, yi);
                }
            }
        } else {
            assert(!logged(oldv.log, a, b)) by {
                if logged(oldv.log, a, b) {
                    let i = choose|i: int|
                        0 <= i < oldv.log.len() && (#[trigger] oldv.log[i]).1 == a && oldv.log[i].2
                            == b;
                    if was_logged {
                        assert(newv.log[i].1 == a && newv.log[i].2 == b);
                    } else {
                        assert(newv.log[i].1 == a && newv.log[i].2 == b);
                    }
                }
            }
            assert(!(a == xi && b == yi)) by {
                if a == xi && b == yi {
                    if !was_logged {
                        assert(newv.log[newv.log.len() - 1].1 == x);
                        assert(newv.log[newv.log.len() - 1].2 == y);
                        assert(logged(newv.log, xi, yi));
                    }
                }
            }
            lemma_rollback_unlogged(newv.tiles, newv.log, w, h, a, b);
            lemma_rollback_unlogged(oldv.tiles, oldv.log, w, h, a, b);
        }
    }
    lemma_rollback_dims(oldv.tiles, oldv.log, w, h);
    lemma_rollback_dims(newv.tiles, newv.log, w, h);
    assert forall|sx: int, sy: int|
        0 <= sx < w * oldv.ratio && 0 <= sy < h * oldv.ratio implies sample_val(
        #[trigger] newv.samples[sy][sx],
    ) == field_at(rollback(newv.tiles, newv.log), w, h, oldv.ratio, sx, sy) by {
        lemma_field_at_agree(
            rollback(oldv.tiles, oldv.log),
            rollback(newv.tiles, newv.log),
            w,
            h,
            oldv.ratio,
            sx,
            sy,
        );
    }
}

/// The charged cells of column `x` among the first `rows` rows, in row
/// order.
pub open spec fn charged_col(tiles: Seq<Seq<i8>>, x: int, rows: int) -> Seq<(usize, usize)>
    decreases rows,
{
    if rows <= 0 {
        Seq::empty()
    } else {
        let prefix = charged_col(tiles, x, rows - 1);
        if tile_charge(tiles, x, rows - 1) != 0 {
            prefix.push((x as usize, (rows - 1) as usize))
        } else {
            prefix
        }
    }
}

/// All charged cells of the first `cols` columns, column-major: outer loop
/// over x, inner over y.  This fixed order matters downstream: the border
/// finder deduplicates by first-seen order.
pub open spec fn charged_seq(tiles: Seq<Seq<i8>>, cols: int, rows: int) -> Seq<(usize, usize)>
    decreases cols,
{
    if cols <= 0 {
        Seq::empty()
    } else {
        charged_seq(tiles, cols - 1, rows) + charged_col(tiles, cols - 1, rows)
    }
}

/// Number of charged cells of column `x` among the first `rows` rows.
pub open spec fn charged_col_count(tiles: Seq<Seq<i8>>, x: int, rows: int) -> int
    decreases rows,
{
    if rows <= 0 {
        0
    } else {
        charged_col_count(tiles, x, rows - 1) + if tile_charge(tiles, x, rows - 1) != 0 {
            1int
        } else {
            0int
        }
    }
}

/// Number of charged cells of the first `cols` columns.
pub open spec fn charged_count(tiles: Seq<Seq<i8>>, cols: int, rows: int) -> int
    decreases cols,
{
    if cols <= 0 {
        0
    } else {
        charged_count(tiles, cols - 1, rows) + charged_col_count(tiles, cols - 1, rows)
    }
}

proof fn lemma_charged_col_exact(tiles: Seq<Seq<i8>>, cx: int, rows: int)
    requires
        0 <= rows <= 4096,
        0 <= cx <= 4096,
    ensures
        forall|c: (usize, usize)|
            #[trigger] charged_col(tiles, cx, rows).contains(c) <==> (c.0 as int == cx
                && (c.1 as int) < rows && tile_charge(tiles, c.0 as int, c.1 as int) != 0),
        charged_col(tiles, cx, rows).len() == charged_col_count(tiles, cx, rows),
        charged_col(tiles, cx, rows).no_duplicates(),
        forall|i: int, j: int|
            0 <= i < j < charged_col(tiles, cx, rows).len() ==> (#[trigger] charged_col(
                tiles,
                cx,
                rows,
            )[i]).1 < (#[trigger] charged_col(tiles, cx, rows)[j]).1,
    decreases rows,
{
    if rows > 0 {
        lemma_charged_col_exact(tiles, cx, rows - 1);
        let prefix = charged_col(tiles, cx, rows - 1);
        let full = charged_col(tiles, cx, rows);
        if tile_charge(tiles, cx, rows - 1) != 0 {
            assert forall|i: int, j: int| 0 <= i < j < full.len() implies (#[trigger] full[i]).1
                < (#[trigger] full[j]).1 by {
                if j < prefix.len() {
                } else {
                    assert(full[j] == (cx as usize, (rows - 1) as usize));
                    assert(prefix.contains(prefix[i]));
                }
            }
            assert(full.no_duplicates()) by {
                assert forall|i: int, j: int| 0 <= i < j < full.len() implies full[i] != full[j] by {
                    assert(full[i].1 < full[j].1);
                }
            }
            assert forall|c: (usize, usize)| #[trigger] full.contains(c) implies (c.0 as int == cx
                && (c.1 as int) < rows && tile_charge(tiles, c.0 as int, c.1 as int) != 0) by {
                let i = choose|i: int| 0 <= i < full.len() && full[i] == c;
                if i < prefix.len() {
                    assert(prefix.contains(c));
                }
            }
            assert forall|c: (usize, usize)| (c.0 as int == cx && (c.1 as int) < rows
                && tile_charge(tiles, c.0 as int, c.1 as int) != 0) implies #[trigger] full.contains(
                c,
            ) by {
                if (c.1 as int) < rows - 1 {
                    assert(prefix.contains(c));
                    let i = choose|i: int| 0 <= i < prefix.len() && prefix[i] == c;
                    assert(full[i] == c);
                } else {
                    assert(full[full.len() - 1] == c);
                }
            }
        }
    }
}

/// The charged-cell enumeration is exact: it holds a cell if and only if
/// that cell is in range and carries a nonzero charge, it holds no cell
/// twice, and its length is exactly the number of nonzero tiles.
pub proof fn lemma_charged_cells_exact(tiles: Seq<Seq<i8>>, cols: int, rows: int)
    requires
        0 <= cols <= 4096,
        0 <= rows <= 4096,
    ensures
        forall|c: (usize, usize)|
            #[trigger] charged_seq(tiles, cols, rows).contains(c) <==> ((c.0 as int) < cols && (
            c.1 as int) < rows && tile_charge(tiles, c.0 as int, c.1 as int) != 0),
        charged_seq(tiles, cols, rows).len() == charged_count(tiles, cols, rows),
        charged_seq(tiles, cols, rows).no_duplicates(),
    decreases cols,
{
    if cols > 0 {
        lemma_charged_cells_exact(tiles, cols - 1, rows);
        lemma_charged_col_exact(tiles, cols - 1, rows);
        let left = charged_seq(tiles, cols - 1, rows);
        let right = charged_col(tiles, cols - 1, rows);
        let full = charged_seq(tiles, cols, rows);
        assert forall|c: (usize, usize)| #[trigger] full.contains(c) implies ((c.0 as int) < cols
            && (c.1 as int) < rows && tile_charge(tiles, c.0 as int, c.1 as int) != 0) by {
            let i = choose|i: int| 0 <= i < full.len() && full[i] == c;
            if i < left.len() {
                assert(left.contains(c));
            } else {
                assert(right[i - left.len()] == c);
                assert(right.contains(c));
            }
        }
        assert forall|c: (usize, usize)| ((c.0 as int) < cols && (c.1 as int) < rows
            && tile_charge(tiles, c.0 as int, c.1 as int) != 0) implies #[trigger] full.contains(
            c,
        ) by {
            if (c.0 as int) < cols - 1 {
                assert(left.contains(c));
                let i = choose|i: int| 0 <= i < left.len() && left[i] == c;
                assert(full[i] == c);
            } else {
                assert(right.contains(c));
                let i = choose|i: int| 0 <= i < right.len() && right[i] == c;
                assert(full[left.len() + i] == c);
            }
        }
        assert(full.no_duplicates()) by {
            assert forall|i: int, j: int| 0 <= i < j < full.len() implies full[i] != full[j] by {
                if i < left.len() && j < left.len() {
                } else if i >= left.len() && j >= left.len() {
                    assert(full[i] == right[i - left.len()]);
                    assert(full[j] == right[j - left.len()]);
                } else {
                    assert(full[i] == left[i]);
                    assert(full[j] == right[j - left.len()]);
                    assert(left.contains(left[i]));
                    assert(right.contains(right[j - left.len()]));
                }
            }
        }
    }
}

impl World {
    /// All charged cells, enumerated column by column (outer loop over x,
    /// inner over y).
    pub fn get_charges(&self) -> (charges: Vec<(usize, usize)>)
        requires
            self@.wf(),
        ensures
            charges@ == charged_seq(self@.tiles, self@.width, self@.height),
    {
        let mut charges: Vec<(usize, usize)> = Vec::new();
        let mut x: usize = 0;
        while x < self.width as usize
            invariant
                self@.wf(),
                x <= self.width as usize,
                self@.width == self.width as int,
                self@.height == self.height as int,
                charges@ == charged_seq(self@.tiles, x as int, self@.height),
            decreases self.width as int - x as int,
        {
            let mut y: usize = 0;
            while y < self.height as usize
                invariant
                    self@.wf(),
                    x < self.width as usize,
                    y <= self.height as usize,
                    self@.width == self.width as int,
                    self@.height == self.height as int,
                    charges@ == charged_seq(self@.tiles, x as int, self@.height) + charged_col(
                        self@.tiles,
                        x as int,
                        y as int,
                    ),
                decreases self.height as int - y as int,
            {
                proof {
                    assert(self.tiles@.len() == self@.tiles.len());
                    assert(self.tiles@[y as int]@ == self@.tiles[y as int]);
                }
                let charge = self.tiles[y][x];
                if charge != 0 {
                    charges.push((x, y));
                }
                y += 1;
            }
            proof {
                assert(charges@ =~= charged_seq(self@.tiles, x as int + 1, self@.height));
            }
            x += 1;
        }
        proof {
            assert(charges@ =~= charged_seq(self@.tiles, self@.width, self@.height));
        }
        charges
    }

    /// Rebuild the field grid with `2 * resolution - 1` subcells per tile
    /// edge, all samples zero, and re-seed the pending log with a
    /// `(0, x, y)` entry for every charged cell, so that the next solve
    /// repopulates the fresh grid in full.
    pub fn set_resolution(&mut self, resolution: u8)
        requires
            old(self)@.wf(),
            1 <= resolution <= 128,
            old(self)@.width * (2 * resolution as int - 1) <= 4096,
            old(self)@.height * (2 * resolution as int - 1) <= 4096,
        ensures
            final(self)@.wf(),
            final(self)@.width == old(self)@.width,
            final(self)@.height == old(self)@.height,
            final(self)@.tiles == old(self)@.tiles,
            final(self)@.ratio == 2 * resolution as int - 1,
            final(self)@.samples.len() == final(self)@.height * final(self)@.ratio,
            forall|sy: int|
                0 <= sy < final(self)@.samples.len() ==> (#[trigger] final(self)@.samples[sy]).len()
                    == final(self)@.width * final(self)@.ratio,
            forall|sx: int, sy: int|
                0 <= sx < final(self)@.width * final(self)@.ratio && 0 <= sy < final(self)@.height
                    * final(self)@.ratio ==> sample_val(#[trigger] final(self)@.samples[sy][sx])
                    == (0int, 0int, 0int),
            final(self)@.log.len() == charged_seq(
                old(self)@.tiles,
                old(self)@.width,
                old(self)@.height,
            ).len(),
            forall|i: int|
                0 <= i < final(self)@.log.len() ==> #[trigger] final(self)@.log[i] == (
                    0i8,
                    charged_seq(old(self)@.tiles, old(self)@.width, old(self)@.height)[i].0,
                    charged_seq(old(self)@.tiles, old(self)@.width, old(self)@.height)[i].1,
                ),
    {
        let ghost oldv = self@;
        let charges = self.get_charges();
        let ratio: u8 = (2 * (resolution as u16) - 1) as u8;
        let grid = zero_grid(self.width, self.height, ratio);
        self.field = FieldGrid { ratio, grid };
        let mut seeds: Vec<(i8, usize, usize)> = Vec::new();
        let mut i: usize = 0;
        while i < charges.len()
            invariant
                i <= charges.len(),
                seeds@.len() == i as int,
                forall|j: int|
                    0 <= j < i as int ==> #[trigger] seeds@[j] == (
                        0i8,
                        charges@[j].0,
                        charges@[j].1,
                    ),
            decreases charges.len() - i,
        {
            let c = charges[i];
            seeds.push((0i8, c.0, c.1));
            i += 1;
        }
        self.updated_tiles = seeds;
        proof {
            lemma_set_resolution_wf(oldv, self@, charges@);
        }
    }
}

/// Zeroed samples together with a log that rolls every charged cell back
/// to neutral satisfy the cached-superposition invariant: the accounted
/// grid is all neutral, and a neutral grid has a zero field.
proof fn lemma_set_resolution_wf(oldv: WorldView, newv: WorldView, charges: Seq<(usize, usize)>)
    requires
        oldv.wf(),
        charges == charged_seq(oldv.tiles, oldv.width, oldv.height),
        newv.width == oldv.width,
        newv.height == oldv.height,
        newv.tiles == oldv.tiles,
        1 <= newv.ratio <= 255,
        newv.ratio % 2 == 1,
        newv.width * newv.ratio <= 4096,
        newv.height * newv.ratio <= 4096,
        newv.samples.len() == newv.height * newv.ratio,
        forall|sy: int|
            0 <= sy < newv.samples.len() ==> (#[trigger] newv.samples[sy]).len() == newv.width
                * newv.ratio,
        forall|sx: int, sy: int|
            0 <= sx < newv.width * newv.ratio && 0 <= sy < newv.height * newv.ratio ==> sample_val(
                #[trigger] newv.samples[sy][sx],
            ) == (0int, 0int, 0int),
        newv.log.len() == charges.len(),
        forall|j: int|
            0 <= j < newv.log.len() ==> #[trigger] newv.log[j] == (0i8, charges[j].0, charges[j].1),
    ensures
        newv.wf(),
{
    let w = oldv.width;
    let h = oldv.height;
    lemma_wf_limits(oldv);
    lemma_charged_cells_exact(oldv.tiles, w, h);
    assert(log_in_bounds(newv.log, w, h)) by {
        assert forall|i: int| 0 <= i < newv.log.len() implies (#[trigger] newv.log[i]).1 < w
            && newv.log[i].2 < h by {
            assert(charges.contains(charges[i]));
        }
    }
    assert(log_distinct(newv.log)) by {
        assert forall|i: int, j: int| 0 <= i < j < newv.log.len() implies !((#[trigger] newv.log[i]).1
            == (#[trigger] newv.log[j]).1 && newv.log[i].2 == newv.log[j].2) by {
            if newv.log[i].1 == newv.log[j].1 && newv.log[i].2 == newv.log[j].2 {
                assert(charges[i] == charges[j]);
            }
        }
    }
    let acct = rollback(newv.tiles, newv.log);
    assert forall|a: int, b: int| 0 <= a < w && 0 <= b < h implies tile_charge(acct, a, b)
        == 0 by {
        if tile_charge(oldv.tiles, a, b) != 0 {
            assert(charges.contains(((a as usize), (b as usize))));
            let i = choose|i: int|
                0 <= i < charges.len() && charges[i] == ((a as usize), (b as usize));
            assert(newv.log[i].1 == a as usize && newv.log[i].2 == b as usize);
            lemma_rollback_logged(newv.tiles, newv.log, w, h, i);
        } else {
            assert(!logged(newv.log, a, b)) by {
                if logged(newv.log, a, b) {
                    let i = choose|i: int|
                        0 <= i < newv.log.len() && (#[trigger] newv.log[i]).1 == a && newv.log[i].2
                            == b;
                    assert(charges.contains(charges[i]));
                    assert(tile_charge(oldv.tiles, a, b) != 0);
                }
            }
            lemma_rollback_unlogged(newv.tiles, newv.log, w, h, a, b);
        }
    }
    assert forall|sx: int, sy: int|
        0 <= sx < newv.width * newv.ratio && 0 <= sy < newv.height * newv.ratio implies sample_val(
        #[trigger] newv.samples[sy][sx],
    ) == field_at(acct, newv.width, newv.height, newv.ratio, sx, sy) by {
        lemma_field_at_zero(acct, newv.width, newv.height, newv.ratio, sx, sy);
    }
}

/// The mathematical state of a `FieldGrid`.
pub ghost struct FieldGridView {
    pub ratio: int,
    pub grid: Seq<Seq<Sample>>,
}

impl View for FieldGrid {
    type V = FieldGridView;

    open(crate) spec fn view(&self) -> FieldGridView {
        FieldGridView {
            ratio: self.ratio as int,
            grid: self.grid@.map_values(|row: Vec<Sample>| row@),
        }
    }
}

impl FieldGrid {
    /// Point-sample accessor: look up the cached sample at a continuous
    /// charge-grid position, fixed-point with 65536 per tile.
    pub fn get(&self, px: i64, py: i64) -> (s: &Sample)
        requires
            0 <= px <= 268435456,
            0 <= py <= 268435456,
            1 <= self@.ratio,
            ((py as int) * self@.ratio) / 65536 < self@.grid.len(),
            ((px as int) * self@.ratio) / 65536 < self@.grid[((py as int) * self@.ratio)
                / 65536].len(),
        ensures
            *s == self@.grid[((py as int) * self@.ratio) / 65536][((px as int) * self@.ratio)
                / 65536],
    {
        proof {
            assert(0 <= (py as int) * (self.ratio as int) <= 68451041280 && 0 <= (px as int) * (
            self.ratio as int) <= 68451041280) by (nonlinear_arith)
                requires
                    0 <= py as int <= 268435456,
                    0 <= px as int <= 268435456,
                    1 <= self.ratio as int <= 255,
            ;
            vstd::arithmetic::div_mod::lemma_div_pos_is_pos((py as int) * (self.ratio as int), 65536);
            vstd::arithmetic::div_mod::lemma_div_pos_is_pos((px as int) * (self.ratio as int), 65536);
            vstd::arithmetic::div_mod::lemma_div_basics_5((py as int) * (self.ratio as int), 65536);
            vstd::arithmetic::div_mod::lemma_div_basics_5((px as int) * (self.ratio as int), 65536);
        }
        let syi: usize = (((py as u64) * (self.ratio as u64)) / 65536) as usize;
        let sxi: usize = (((px as u64) * (self.ratio as u64)) / 65536) as usize;
        proof {
            assert(self.grid@.len() == self@.grid.len());
            assert(self.grid@[syi as int]@ == self@.grid[syi as int]);
        }
        &self.grid[syi][sxi]
    }
}

impl World {
    /// The width of the charge grid.
    pub fn width(&self) -> (w: u32)
        ensures
            w as int == self@.width,
    {
        self.width
    }

    /// The height of the charge grid.
    pub fn height(&self) -> (h: u32)
        ensures
            h as int == self@.height,
    {
        self.height
    }

    /// Read access to the charge array.
    pub fn charge_at(&self, x: usize, y: usize) -> (c: i8)
        requires
            self@.wf(),
            (x as int) < self@.width,
            (y as int) < self@.height,
        ensures
            c as int == tile_charge(self@.tiles, x as int, y as int),
    {
        proof {
            assert(self.tiles@.len() == self@.tiles.len());
            assert(self.tiles@[y as int]@ == self@.tiles[y as int]);
        }
        self.tiles[y][x]
    }

    /// The number of edits the cached field does not account for yet.
    pub fn pending_changes(&self) -> (n: usize)
        ensures
            n as int == self@.log.len(),
    {
        self.updated_tiles.len()
    }

    /// The cached sample of one subcell, by subcell index.
    pub fn sample_at(&self, sx: usize, sy: usize) -> (s: Sample)
        requires
            self@.wf(),
            (sx as int) < self@.width * self@.ratio,
            (sy as int) < self@.height * self@.ratio,
        ensures
            s == self@.samples[sy as int][sx as int],
    {
        proof {
            assert(self.field.grid@.len() == self@.samples.len());
            assert(self.field.grid@[sy as int]@ == self@.samples[sy as int]);
        }
        self.field.grid[sy][sx]
    }

    /// The field grid itself, for point sampling.
    pub fn field(&self) -> (f: &FieldGrid)
        ensures
            f@.ratio == self@.ratio,
            f@.grid == self@.samples,
    {
        &self.field
    }
}

/// Two solved worlds with the same charges, dimensions and ratio hold
/// bit-for-bit the same cached field: after a resolution change and a
/// solve, the samples are exactly those of a freshly built grid at the new
/// resolution carrying the same charges after its first solve.
pub proof fn lemma_solved_field_determined(v1: WorldView, v2: WorldView, sx: int, sy: int)
    requires
        v1.wf(),
        v2.wf(),
        v1.tiles == v2.tiles,
        v1.width == v2.width,
        v1.height == v2.height,
        v1.ratio == v2.ratio,
        v1.log.len() == 0,
        v2.log.len() == 0,
        0 <= sx < v1.width * v1.ratio,
        0 <= sy < v1.height * v1.ratio,
    ensures
        v1.samples[sy][sx] == v2.samples[sy][sx],
{
    assert(rollback(v1.tiles, v1.log) == v1.tiles);
    assert(rollback(v2.tiles, v2.log) == v2.tiles);
    assert(sample_val(v1.samples[sy][sx]) == sample_val(v2.samples[sy][sx]));
}

/// Grid dimensions are individually bounded by the capped subcell counts.
pub proof fn lemma_wf_limits(v: WorldView)
    requires
        v.wf(),
    ensures
        v.width <= 4096,
        v.height <= 4096,
{
    assert(v.width <= v.width * v.ratio && v.height <= v.height * v.ratio) by (nonlinear_arith)
        requires
            1 <= v.ratio,
            0 <= v.width,
            0 <= v.height,
    ;
}

/// Build a `(width * ratio) x (height * ratio)` grid of zero samples.
fn zero_grid(width: u32, height: u32, ratio: u8) -> (grid: Vec<Vec<Sample>>)
    requires
        width as int * ratio as int <= 4096,
        height as int * ratio as int <= 4096,
    ensures
        grid@.len() == height as int * ratio as int,
        forall|sy: int|
            0 <= sy < grid@.len() ==> (#[trigger] grid@[sy])@.len() == width as int * ratio as int,
        forall|sy: int, sx: int|
            0 <= sy < grid@.len() && 0 <= sx < width as int * ratio as int ==> sample_val(
                #[trigger] grid@[sy]@[sx],
            ) == (0int, 0int, 0int),
{
    let wr: usize = (width as usize) * (ratio as usize);
    let hr: usize = (height as usize) * (ratio as usize);
    let mut grid: Vec<Vec<Sample>> = Vec::new();
    let mut sy: usize = 0;
    while sy < hr
        invariant
            sy <= hr,
            wr == width as int * ratio as int,
            hr == height as int * ratio as int,
            grid@.len() == sy as int,
            forall|j: int| 0 <= j < sy as int ==> (#[trigger] grid@[j])@.len() == wr as int,
            forall|j: int, i: int|
                0 <= j < sy as int && 0 <= i < wr as int ==> sample_val(#[trigger] grid@[j]@[i])
                    == (0int, 0int, 0int),
        decreases hr as int - sy as int,
    {
        let mut row: Vec<Sample> = Vec::new();
        let mut sx: usize = 0;
        while sx < wr
            invariant
                sx <= wr,
                row@.len() == sx as int,
                forall|i: int|
                    0 <= i < sx as int ==> sample_val(#[trigger] row@[i]) == (0int, 0int, 0int),
            decreases wr as int - sx as int,
        {
            row.push(Sample::zero());
            sx += 1;
        }
        grid.push(row);
        sy += 1;
    }
    grid
}

} // verus!
