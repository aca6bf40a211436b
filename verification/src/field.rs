//! The contribution law of a point charge and the superposition field.
//!
//! All quantities are fixed-point integers with a scale of 65536 per unit.
//! Distances are measured in half-subcell steps: the subcell `(sx, sy)` of a
//! grid with `ratio` subdivisions per tile edge has its center at
//! `(2*sx + 1, 2*sy + 1)` in units of `1 / (2*ratio)` tiles, and the tile
//! `(cx, cy)` has its center at `((2*cx + 1)*ratio, (2*cy + 1)*ratio)` in the
//! same units.  With these integer coordinates the contribution of a charge
//! to a subcell is an exact function of integers, so adding and removing a
//! contribution cancel exactly.

use vstd::prelude::*;
use crate::math::{sqrt_floor, tdiv, lemma_sqrt_floor_bounds, lemma_tdiv_bound, isqrt, div_trunc};

verus! {

/// One cached field sample: a 2D force vector and a scalar potential,
/// fixed-point with 65536 per unit.
#[derive(Clone, Copy, Debug, PartialEq, Eq, Structural)]
pub struct Sample {
    pub fx: i128,
    pub fy: i128,
    pub pot: i128,
}

impl Sample {
    pub fn zero() -> (s: Sample)
        ensures
            s.fx == 0 && s.fy == 0 && s.pot == 0,
    {
        Sample { fx: 0, fy: 0, pot: 0 }
    }
}

/// The mathematical value of a sample: (force x, force y, potential).
pub open spec fn sample_val(s: Sample) -> (int, int, int) {
    (s.fx as int, s.fy as int, s.pot as int)
}

pub open spec fn add3(a: (int, int, int), b: (int, int, int)) -> (int, int, int) {
    (a.0 + b.0, a.1 + b.1, a.2 + b.2)
}

pub open spec fn sub3(a: (int, int, int), b: (int, int, int)) -> (int, int, int) {
    (a.0 - b.0, a.1 - b.1, a.2 - b.2)
}

/// Signed distance, in half-subcell units, between the center of subcell
/// index `s` and the center of tile index `c`, along one axis.
pub open spec fn delta_c(s: int, c: int, r: int) -> int {
    2 * s + 1 - (2 * c + 1) * r
}

/// Field contribution of a point charge `q` at integer displacement
/// `(u, v)` (half-subcell units) for subdivision ratio `r`:
/// inverse-square force along the displacement and inverse-distance
/// potential, or exactly zero at zero displacement (no self-field) or for
/// a neutral charge.
pub open spec fn contribution(q: int, u: int, v: int, r: int) -> (int, int, int) {
    let d2 = u * u + v * v;
    if q == 0 || d2 == 0 {
        (0, 0, 0)
    } else {
        let n = sqrt_floor(d2 as nat) as int;
        (
            tdiv(q * u * 262144 * r * r, n * d2),
            tdiv(q * v * 262144 * r * r, n * d2),
            tdiv(q * 131072 * r, n),
        )
    }
}

/// A static magnitude bound on any single contribution component, for
/// charges in `i8`, displacements up to 100000 and ratios up to 255.
pub open spec fn contribution_bound() -> int {
    860000000000000000
}

/// Magnitude bound of a product from magnitude bounds of its factors.
pub proof fn lemma_abs_mul(a: int, b: int, aa: int, bb: int, c: int)
    requires
        -aa <= a <= aa,
        -bb <= b <= bb,
        0 <= aa,
        0 <= bb,
        aa * bb <= c,
    ensures
        -c <= a * b <= c,
{
    assert(-(aa * bb) <= a * b <= aa * bb) by (nonlinear_arith)
        requires
            -aa <= a <= aa,
            -bb <= b <= bb,
            0 <= aa,
            0 <= bb,
    ;
}

pub proof fn lemma_contribution_bound(q: int, u: int, v: int, r: int)
    requires
        -128 <= q <= 127,
        -100000 <= u <= 100000,
        -100000 <= v <= 100000,
        1 <= r <= 255,
    ensures
        -contribution_bound() <= contribution(q, u, v, r).0 <= contribution_bound(),
        -contribution_bound() <= contribution(q, u, v, r).1 <= contribution_bound(),
        -contribution_bound() <= contribution(q, u, v, r).2 <= contribution_bound(),
{
    let d2 = u * u + v * v;
    assert(u * u >= 0 && v * v >= 0) by (nonlinear_arith);
    if q == 0 || d2 == 0 {
    } else {
        let n = sqrt_floor(d2 as nat) as int;
        lemma_sqrt_floor_bounds(d2 as nat);
        assert(n >= 1 && n * d2 >= 1) by (nonlinear_arith)
            requires
                n * n <= d2,
                d2 < (n + 1) * (n + 1),
                d2 >= 1,
                n >= 0,
        ;
        lemma_numerator_bounds(q, u, v, r);
        lemma_tdiv_bound(q * u * 262144 * r * r, n * d2);
        lemma_tdiv_bound(q * v * 262144 * r * r, n * d2);
        lemma_tdiv_bound(q * 131072 * r, n);
    }
}

/// Magnitude bounds on the numerators of the contribution law, built up
/// one factor at a time.
proof fn lemma_numerator_bounds(q: int, u: int, v: int, r: int)
    requires
        -128 <= q <= 127,
        -100000 <= u <= 100000,
        -100000 <= v <= 100000,
        1 <= r <= 255,
    ensures
        -12800000 <= q * u <= 12800000,
        -12800000 <= q * v <= 12800000,
        -3355443200000 <= q * u * 262144 <= 3355443200000,
        -3355443200000 <= q * v * 262144 <= 3355443200000,
        -855638016000000 <= q * u * 262144 * r <= 855638016000000,
        -855638016000000 <= q * v * 262144 * r <= 855638016000000,
        -contribution_bound() <= q * u * 262144 * r * r <= contribution_bound(),
        -contribution_bound() <= q * v * 262144 * r * r <= contribution_bound(),
        -16777216 <= q * 131072 <= 16777216,
        -contribution_bound() <= q * 131072 * r <= contribution_bound(),
{
    lemma_abs_mul(q, u, 128, 100000, 12800000);
    lemma_abs_mul(q, v, 128, 100000, 12800000);
    lemma_abs_mul(q * u, 262144, 12800000, 262144, 3355443200000);
    lemma_abs_mul(q * v, 262144, 12800000, 262144, 3355443200000);
    lemma_abs_mul(q * u * 262144, r, 3355443200000, 255, 855638016000000);
    lemma_abs_mul(q * v * 262144, r, 3355443200000, 255, 855638016000000);
    lemma_abs_mul(q * u * 262144 * r, r, 855638016000000, 255, contribution_bound());
    lemma_abs_mul(q * v * 262144 * r, r, 855638016000000, 255, contribution_bound());
    lemma_abs_mul(q, 131072, 128, 131072, 16777216);
    lemma_abs_mul(q * 131072, r, 16777216, 255, contribution_bound());
}

/// Compute the field and potential that `charge` contributes at integer
/// displacement `(u, v)` (half-subcell units), for subdivision ratio
/// `ratio`.
pub fn get_field(charge: i8, u: i64, v: i64, ratio: u8) -> (s: Sample)
    requires
        -100000 <= u <= 100000,
        -100000 <= v <= 100000,
        1 <= ratio,
    ensures
        sample_val(s) == contribution(charge as int, u as int, v as int, ratio as int),
        -contribution_bound() <= s.fx <= contribution_bound(),
        -contribution_bound() <= s.fy <= contribution_bound(),
        -contribution_bound() <= s.pot <= contribution_bound(),
{
    proof {
        lemma_contribution_bound(charge as int, u as int, v as int, ratio as int);
    }
    let ui: i128 = u as i128;
    let vi: i128 = v as i128;
    proof {
        assert(0 <= ui * ui <= 10000000000 && 0 <= vi * vi <= 10000000000) by (nonlinear_arith)
            requires
                -100000 <= ui <= 100000,
                -100000 <= vi <= 100000,
        ;
    }
    let d2: i128 = ui * ui + vi * vi;
    if charge == 0 || d2 == 0 {
        return Sample::zero();
    }
    let n: i128 = isqrt(d2 as u128) as i128;
    proof {
        lemma_sqrt_floor_bounds(d2 as nat);
        assert(n >= 1 && 1 <= n * d2 <= 20000000000 * 20000000000) by (nonlinear_arith)
            requires
                n * n <= d2,
                d2 < (n + 1) * (n + 1),
                1 <= d2 <= 20000000000,
                n >= 0,
        ;
    }
    let q: i128 = charge as i128;
    let r: i128 = ratio as i128;
    proof {
        lemma_numerator_bounds(q as int, ui as int, vi as int, r as int);
    }
    let fx = div_trunc(q * ui * 262144 * r * r, n * d2);
    let fy = div_trunc(q * vi * 262144 * r * r, n * d2);
    let pot = div_trunc(q * 131072 * r, n);
    Sample { fx, fy, pot }
}

/// The charge stored at tile `(x, y)`.
pub open spec fn tile_charge(tiles: Seq<Seq<i8>>, x: int, y: int) -> int {
    tiles[y][x] as int
}

/// `tiles` with the charge at `(x, y)` replaced by `q`.
pub open spec fn set_tile(tiles: Seq<Seq<i8>>, x: int, y: int, q: i8) -> Seq<Seq<i8>> {
    tiles.update(y, tiles[y].update(x, q))
}

/// `tiles` is a rectangular `cols x rows` grid.
pub open spec fn grid_dims(tiles: Seq<Seq<i8>>, cols: int, rows: int) -> bool {
    &&& tiles.len() == rows
    &&& forall|y: int| 0 <= y < rows ==> (#[trigger] tiles[y]).len() == cols
}

/// `set_tile` keeps the grid rectangular and changes exactly one tile.
pub proof fn lemma_set_tile(tiles: Seq<Seq<i8>>, cols: int, rows: int, tx: int, ty: int, q: i8)
    requires
        grid_dims(tiles, cols, rows),
        0 <= tx < cols,
        0 <= ty < rows,
    ensures
        grid_dims(set_tile(tiles, tx, ty, q), cols, rows),
        tile_charge(set_tile(tiles, tx, ty, q), tx, ty) == q as int,
        forall|x: int, y: int|
            0 <= x < cols && 0 <= y < rows && !(x == tx && y == ty) ==> tile_charge(
                set_tile(tiles, tx, ty, q),
                x,
                y,
            ) == tile_charge(tiles, x, y),
{
}

/// Contribution of tile `(cx, cy)` to subcell `(sx, sy)`.
pub open spec fn cell_contribution(
    tiles: Seq<Seq<i8>>,
    cx: int,
    cy: int,
    r: int,
    sx: int,
    sy: int,
) -> (int, int, int) {
    contribution(tile_charge(tiles, cx, cy), delta_c(sx, cx, r), delta_c(sy, cy, r), r)
}

/// Sum of the contributions of the first `rows` tiles of column `cx`.
pub open spec fn col_field(
    tiles: Seq<Seq<i8>>,
    cx: int,
    rows: int,
    r: int,
    sx: int,
    sy: int,
) -> (int, int, int)
    decreases rows,
{
    if rows <= 0 {
        (0, 0, 0)
    } else {
        add3(col_field(tiles, cx, rows - 1, r, sx, sy), cell_contribution(tiles, cx, rows - 1, r, sx, sy))
    }
}

/// The superposition field at subcell `(sx, sy)`: the sum of the
/// contributions of all tiles of the `cols x rows` grid.
pub open spec fn field_at(
    tiles: Seq<Seq<i8>>,
    cols: int,
    rows: int,
    r: int,
    sx: int,
    sy: int,
) -> (int, int, int)
    decreases cols,
{
    if cols <= 0 {
        (0, 0, 0)
    } else {
        add3(field_at(tiles, cols - 1, rows, r, sx, sy), col_field(tiles, cols - 1, rows, r, sx, sy))
    }
}

proof fn lemma_col_field_zero(tiles: Seq<Seq<i8>>, cx: int, rows: int, r: int, sx: int, sy: int)
    requires
        forall|y: int| 0 <= y < rows ==> tile_charge(tiles, cx, y) == 0,
    ensures
        col_field(tiles, cx, rows, r, sx, sy) == (0int, 0int, 0int),
    decreases rows,
{
    if rows > 0 {
        lemma_col_field_zero(tiles, cx, rows - 1, r, sx, sy);
    }
}

/// A grid whose tiles are all neutral induces an exactly zero field and
/// potential everywhere.
pub proof fn lemma_field_at_zero(tiles: Seq<Seq<i8>>, cols: int, rows: int, r: int, sx: int, sy: int)
    requires
        forall|x: int, y: int| 0 <= x < cols && 0 <= y < rows ==> tile_charge(tiles, x, y) == 0,
    ensures
        field_at(tiles, cols, rows, r, sx, sy) == (0int, 0int, 0int),
    decreases cols,
{
    if cols > 0 {
        lemma_field_at_zero(tiles, cols - 1, rows, r, sx, sy);
        lemma_col_field_zero(tiles, cols - 1, rows, r, sx, sy);
    }
}

proof fn lemma_col_field_agree(
    t1: Seq<Seq<i8>>,
    t2: Seq<Seq<i8>>,
    cx: int,
    rows: int,
    r: int,
    sx: int,
    sy: int,
)
    requires
        forall|y: int| 0 <= y < rows ==> tile_charge(t1, cx, y) == tile_charge(t2, cx, y),
    ensures
        col_field(t1, cx, rows, r, sx, sy) == col_field(t2, cx, rows, r, sx, sy),
    decreases rows,
{
    if rows > 0 {
        lemma_col_field_agree(t1, t2, cx, rows - 1, r, sx, sy);
    }
}

/// Two grids that agree on every tile in range induce the same field.
pub proof fn lemma_field_at_agree(
    t1: Seq<Seq<i8>>,
    t2: Seq<Seq<i8>>,
    cols: int,
    rows: int,
    r: int,
    sx: int,
    sy: int,
)
    requires
        forall|x: int, y: int|
            0 <= x < cols && 0 <= y < rows ==> tile_charge(t1, x, y) == tile_charge(t2, x, y),
    ensures
        field_at(t1, cols, rows, r, sx, sy) == field_at(t2, cols, rows, r, sx, sy),
    decreases cols,
{
    if cols > 0 {
        lemma_field_at_agree(t1, t2, cols - 1, rows, r, sx, sy);
        lemma_col_field_agree(t1, t2, cols - 1, rows, r, sx, sy);
    }
}

proof fn lemma_col_field_update(
    t1: Seq<Seq<i8>>,
    t2: Seq<Seq<i8>>,
    cx: int,
    rows: int,
    r: int,
    sx: int,
    sy: int,
    ty: int,
)
    requires
        0 <= ty < rows,
        forall|y: int| 0 <= y < rows && y != ty ==> tile_charge(t1, cx, y) == tile_charge(t2, cx, y),
    ensures
        col_field(t2, cx, rows, r, sx, sy) == add3(
            sub3(col_field(t1, cx, rows, r, sx, sy), cell_contribution(t1, cx, ty, r, sx, sy)),
            cell_contribution(t2, cx, ty, r, sx, sy),
        ),
    decreases rows,
{
    if ty == rows - 1 {
        lemma_col_field_agree(t1, t2, cx, rows - 1, r, sx, sy);
    } else {
        lemma_col_field_update(t1, t2, cx, rows - 1, r, sx, sy, ty);
    }
}

/// Changing the charge of one tile changes the field at every subcell by
/// exactly the difference of the two contributions of that tile: the update
/// of the cached field is exactly reversible.
pub proof fn lemma_field_at_update(
    t1: Seq<Seq<i8>>,
    t2: Seq<Seq<i8>>,
    cols: int,
    rows: int,
    r: int,
    sx: int,
    sy: int,
    tx: int,
    ty: int,
)
    requires
        0 <= tx < cols,
        0 <= ty < rows,
        forall|x: int, y: int|
            0 <= x < cols && 0 <= y < rows && !(x == tx && y == ty) ==> tile_charge(t1, x, y)
                == tile_charge(t2, x, y),
    ensures
        field_at(t2, cols, rows, r, sx, sy) == add3(
            sub3(field_at(t1, cols, rows, r, sx, sy), cell_contribution(t1, tx, ty, r, sx, sy)),
            cell_contribution(t2, tx, ty, r, sx, sy),
        ),
    decreases cols,
{
    if tx == cols - 1 {
        lemma_field_at_agree(t1, t2, cols - 1, rows, r, sx, sy);
        lemma_col_field_update(t1, t2, cols - 1, rows, r, sx, sy, ty);
    } else {
        lemma_field_at_update(t1, t2, cols - 1, rows, r, sx, sy, tx, ty);
        lemma_col_field_agree(t1, t2, cols - 1, rows, r, sx, sy);
    }
}

proof fn lemma_col_field_bound(
    tiles: Seq<Seq<i8>>,
    cx: int,
    rows: int,
    r: int,
    sx: int,
    sy: int,
)
    requires
        1 <= r <= 255,
        0 <= cx,
        0 <= rows,
        0 <= sx,
        0 <= sy,
        2 * sx + 1 <= 100000,
        2 * sy + 1 <= 100000,
        (2 * cx + 1) * r <= 100000,
        rows * (2 * r) <= 100000,
    ensures
        -(rows * contribution_bound()) <= col_field(tiles, cx, rows, r, sx, sy).0 <= rows
            * contribution_bound(),
        -(rows * contribution_bound()) <= col_field(tiles, cx, rows, r, sx, sy).1 <= rows
            * contribution_bound(),
        -(rows * contribution_bound()) <= col_field(tiles, cx, rows, r, sx, sy).2 <= rows
            * contribution_bound(),
    decreases rows,
{
    if rows <= 0 {
        assert(rows * contribution_bound() == 0) by (nonlinear_arith)
            requires
                rows == 0,
        ;
    } else {
        assert((rows - 1) * (2 * r) <= 100000 && 0 <= (rows - 1) * (2 * r)) by (nonlinear_arith)
            requires
                rows * (2 * r) <= 100000,
                1 <= rows,
                1 <= r,
        ;
        lemma_col_field_bound(tiles, cx, rows - 1, r, sx, sy);
        let cy = rows - 1;
        let q = tile_charge(tiles, cx, cy);
        assert(-128 <= q <= 127);
        assert(-100000 <= delta_c(sx, cx, r) <= 100000);
        assert((2 * cy + 1) * r <= 100000 && 0 <= (2 * cy + 1) * r) by (nonlinear_arith)
            requires
                rows * (2 * r) <= 100000,
                cy == rows - 1,
                0 <= cy,
                1 <= r,
        ;
        assert(-100000 <= delta_c(sy, cy, r) <= 100000);
        lemma_contribution_bound(q, delta_c(sx, cx, r), delta_c(sy, cy, r), r);
        assert((rows - 1) * contribution_bound() + contribution_bound() == rows
            * contribution_bound()) by (nonlinear_arith);
    }
}

/// A static bound on the superposition field: each component is at most
/// `cols * rows` single-contribution bounds in magnitude.
pub proof fn lemma_field_at_bound(
    tiles: Seq<Seq<i8>>,
    cols: int,
    rows: int,
    r: int,
    sx: int,
    sy: int,
)
    requires
        1 <= r <= 255,
        0 <= cols,
        0 <= rows,
        0 <= sx,
        0 <= sy,
        2 * sx + 1 <= 100000,
        2 * sy + 1 <= 100000,
        cols * (2 * r) <= 100000,
        rows * (2 * r) <= 100000,
    ensures
        -(cols * rows * contribution_bound()) <= field_at(tiles, cols, rows, r, sx, sy).0 <= cols
            * rows * contribution_bound(),
        -(cols * rows * contribution_bound()) <= field_at(tiles, cols, rows, r, sx, sy).1 <= cols
            * rows * contribution_bound(),
        -(cols * rows * contribution_bound()) <= field_at(tiles, cols, rows, r, sx, sy).2 <= cols
            * rows * contribution_bound(),
    decreases cols,
{
    if cols <= 0 {
        assert(cols * rows * contribution_bound() == 0) by (nonlinear_arith)
            requires
                cols == 0,
        ;
    } else {
        assert((cols - 1) * (2 * r) <= 100000 && 0 <= (cols - 1) * (2 * r)) by (nonlinear_arith)
            requires
                cols * (2 * r) <= 100000,
                1 <= cols,
                1 <= r,
        ;
        lemma_field_at_bound(tiles, cols - 1, rows, r, sx, sy);
        let cx = cols - 1;
        assert((2 * cx + 1) * r <= 100000) by (nonlinear_arith)
            requires
                cols * (2 * r) <= 100000,
                cx == cols - 1,
                0 <= cx,
                1 <= r,
        ;
        lemma_col_field_bound(tiles, cx, rows, r, sx, sy);
        assert((cols - 1) * rows * contribution_bound() + rows * contribution_bound() == cols * rows
            * contribution_bound()) by (nonlinear_arith);
    }
}

/// Placing a charge on a neutral grid and then clearing it again leaves a
/// grid whose field is exactly zero everywhere: adding and removing a
/// charge are exact inverses.
pub proof fn lemma_place_then_clear_neutral(
    tiles: Seq<Seq<i8>>,
    cols: int,
    rows: int,
    r: int,
    sx: int,
    sy: int,
    tx: int,
    ty: int,
    q: i8,
)
    requires
        forall|x: int, y: int| 0 <= x < cols && 0 <= y < rows ==> tile_charge(tiles, x, y) == 0,
        grid_dims(tiles, cols, rows),
        0 <= tx < cols,
        0 <= ty < rows,
    ensures
        field_at(set_tile(set_tile(tiles, tx, ty, q), tx, ty, 0), cols, rows, r, sx, sy) == (
            0int,
            0int,
            0int,
        ),
{
    let t1 = set_tile(tiles, tx, ty, q);
    let t2 = set_tile(t1, tx, ty, 0);
    lemma_set_tile(tiles, cols, rows, tx, ty, q);
    lemma_set_tile(t1, cols, rows, tx, ty, 0);
    assert forall|x: int, y: int| 0 <= x < cols && 0 <= y < rows implies tile_charge(t2, x, y)
        == 0 by {
        if !(x == tx && y == ty) {
            assert(tile_charge(t2, x, y) == tile_charge(t1, x, y));
            assert(tile_charge(t1, x, y) == tile_charge(tiles, x, y));
        }
    }
    lemma_field_at_zero(t2, cols, rows, r, sx, sy);
}

/// Superposition is exactly linear: the field of two charges placed on a
/// neutral grid is the componentwise sum of the fields of each charge
/// placed alone.
pub proof fn lemma_superposition(
    tiles: Seq<Seq<i8>>,
    cols: int,
    rows: int,
    r: int,
    sx: int,
    sy: int,
    x1: int,
    y1: int,
    q1: i8,
    x2: int,
    y2: int,
    q2: i8,
)
    requires
        forall|x: int, y: int| 0 <= x < cols && 0 <= y < rows ==> tile_charge(tiles, x, y) == 0,
        grid_dims(tiles, cols, rows),
        0 <= x1 < cols,
        0 <= y1 < rows,
        0 <= x2 < cols,
        0 <= y2 < rows,
        !(x1 == x2 && y1 == y2),
    ensures
        field_at(set_tile(set_tile(tiles, x1, y1, q1), x2, y2, q2), cols, rows, r, sx, sy) == add3(
            field_at(set_tile(tiles, x1, y1, q1), cols, rows, r, sx, sy),
            field_at(set_tile(tiles, x2, y2, q2), cols, rows, r, sx, sy),
        ),
{
    let ta = set_tile(tiles, x1, y1, q1);
    let tb = set_tile(tiles, x2, y2, q2);
    let tab = set_tile(ta, x2, y2, q2);
    lemma_set_tile(tiles, cols, rows, x1, y1, q1);
    lemma_set_tile(tiles, cols, rows, x2, y2, q2);
    lemma_set_tile(ta, cols, rows, x2, y2, q2);
    lemma_field_at_zero(tiles, cols, rows, r, sx, sy);
    lemma_field_at_update(tiles, ta, cols, rows, r, sx, sy, x1, y1);
    lemma_field_at_update(tiles, tb, cols, rows, r, sx, sy, x2, y2);
    lemma_field_at_update(ta, tab, cols, rows, r, sx, sy, x2, y2);
    assert(tile_charge(ta, x2, y2) == 0);
    assert(tile_charge(tab, x2, y2) == q2 as int);
    assert(tile_charge(tb, x2, y2) == q2 as int);
}

} // verus!
