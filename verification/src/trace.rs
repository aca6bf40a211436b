//! The field-line tracer.
//!
//! One polyline is attempted per border seed.  From the seed cell's center
//! the tracer repeatedly samples the cached force, records the position
//! whenever the quantized field direction changes (compressing straight
//! runs to their endpoints), and advances one normalized step along the
//! field — with the field for a positive seed, against it for a negative
//! one.  A line ends at the grid boundary, on a charged cell, or at a step
//! cap; a negative line that runs into a charged cell is discarded whole.
//!
//! Positions are fixed-point with 65536 per tile.  The direction is
//! quantized to buckets of a tenth of a radian through an integer
//! arctangent approximation.

use vstd::prelude::*;
use crate::math::{sqrt_floor, tdiv, lemma_sqrt_floor_bounds, lemma_tdiv_bound, isqrt, div_trunc,
    div_floor};
use crate::field::{Sample, tile_charge, lemma_field_at_bound};
use crate::world::{World, rollback, lemma_rollback_dims};
use crate::borders::borders_spec;

verus! {

/// Magnitude of an integer.
pub open spec fn abs_i(a: int) -> int {
    if a >= 0 {
        a
    } else {
        -a
    }
}

/// Integer arctangent of `z / 1048576` for `0 <= z <= 1048576`, in units
/// of `1 / 1048576` radian: the polynomial approximation
/// `atan(t) = t * (pi/4) + 0.273 * t * (1 - t)`.
pub open spec fn atn_approx(z: int) -> int {
    tdiv(823550 * z * 1048576 + 286261 * z * (1048576 - z), 1099511627776)
}

/// Round `t` (an angle times ten, in units of `1 / 1048576`) to the
/// nearest integer, halves away from zero.
pub open spec fn round_angle(t: int) -> int {
    if t >= 0 {
        (10 * t + 524288) / 1048576
    } else {
        -((10 * (-t) + 524288) / 1048576)
    }
}

/// The direction bucket of a force vector: its angle in radians times
/// ten, rounded to the nearest integer; zero for the zero vector.  Two
/// samples fall in the same bucket exactly when the line keeps its
/// direction to within a tenth of a radian.
pub open spec fn bucket_spec(fx: int, fy: int) -> int {
    if fx == 0 && fy == 0 {
        0
    } else {
        let ax = abs_i(fx);
        let ay = abs_i(fy);
        let theta = if ax >= ay {
            atn_approx(tdiv(ay * 1048576, ax))
        } else {
            1647099 - atn_approx(tdiv(ax * 1048576, ay))
        };
        if fx >= 0 {
            if fy >= 0 {
                round_angle(theta)
            } else {
                round_angle(-theta)
            }
        } else {
            if fy >= 0 {
                round_angle(3294199 - theta)
            } else {
                round_angle(-(3294199 - theta))
            }
        }
    }
}

/// One normalized step along the force `(fx, fy)`, scaled by
/// `sign / ratio`, in fixed-point position units; the zero vector gives a
/// zero step.  Very large forces are scaled down first, which leaves the
/// direction unchanged.
pub open spec fn step_vec(fx: int, fy: int, sign: int, r: int) -> (int, int) {
    let gx = if abs_i(fx) > 72057594037927936 || abs_i(fy) > 72057594037927936 {
        tdiv(fx, 4294967296)
    } else {
        fx
    };
    let gy = if abs_i(fx) > 72057594037927936 || abs_i(fy) > 72057594037927936 {
        tdiv(fy, 4294967296)
    } else {
        fy
    };
    let d2 = gx * gx + gy * gy;
    let n = sqrt_floor(d2 as nat) as int;
    if n == 0 {
        (0, 0)
    } else {
        (tdiv(65536 * sign * gx, n * r), tdiv(65536 * sign * gy, n * r))
    }
}

/// The rest of one line trace, from the given state: `(px, py)` is the
/// current position, `(ox, oy)` the previous one, `last` the bucket of
/// the last recorded direction, `line` the points recorded so far and
/// `fuel` the remaining step budget.  `None` means the line is discarded.
pub open spec fn trace_rec(
    tiles: Seq<Seq<i8>>,
    samples: Seq<Seq<Sample>>,
    w: int,
    h: int,
    r: int,
    sign: int,
    px: i64,
    py: i64,
    ox: i64,
    oy: i64,
    last: Option<int>,
    line: Seq<(i64, i64)>,
    fuel: nat,
) -> Option<Seq<(i64, i64)>>
    decreases fuel,
{
    let cx = (px as int) / 65536;
    let cy = (py as int) / 65536;
    if !(0 <= cx && cx < w && 0 <= cy && cy < h) || fuel == 0 {
        Some(line.push((ox, oy)))
    } else if tile_charge(tiles, cx, cy) != 0 {
        if sign < 0 {
            None
        } else {
            Some(line.push((ox, oy)))
        }
    } else {
        let sxi = ((px as int) * r) / 65536;
        let syi = ((py as int) * r) / 65536;
        let f = samples[syi][sxi];
        let b = bucket_spec(f.fx as int, f.fy as int);
        let rec = if last != Some(b) {
            line.push((px, py))
        } else {
            line
        };
        let nlast = Some(b);
        let st = step_vec(f.fx as int, f.fy as int, sign, r);
        trace_rec(
            tiles,
            samples,
            w,
            h,
            r,
            sign,
            ((px as int) + st.0) as i64,
            ((py as int) + st.1) as i64,
            px,
            py,
            if last != Some(b) {
                nlast
            } else {
                last
            },
            rec,
            (fuel - 1) as nat,
        )
    }
}

/// The full trace of one border seed: start at the seed cell's center
/// with a budget of 2000 steps.
pub open spec fn trace_line_spec(
    tiles: Seq<Seq<i8>>,
    samples: Seq<Seq<Sample>>,
    w: int,
    h: int,
    r: int,
    b: (i8, usize, usize),
) -> Option<Seq<(i64, i64)>> {
    let px = (b.1 * 65536 + 32768) as i64;
    let py = (b.2 * 65536 + 32768) as i64;
    trace_rec(
        tiles,
        samples,
        w,
        h,
        r,
        crate::math::sgn(b.0 as int),
        px,
        py,
        px,
        py,
        None,
        Seq::empty(),
        2000,
    )
}

/// The polylines of all the given border seeds, in order, discarded lines
/// omitted.
pub open spec fn lines_from(
    tiles: Seq<Seq<i8>>,
    samples: Seq<Seq<Sample>>,
    w: int,
    h: int,
    r: int,
    borders: Seq<(i8, usize, usize)>,
) -> Seq<Seq<(i64, i64)>>
    decreases borders.len(),
{
    if borders.len() == 0 {
        Seq::empty()
    } else {
        let rest = lines_from(
            tiles,
            samples,
            w,
            h,
            r,
            borders.subrange(1, borders.len() as int),
        );
        match trace_line_spec(tiles, samples, w, h, r, borders[0]) {
            Some(l) => seq![l] + rest,
            None => rest,
        }
    }
}

/// `a / b <= c` follows from `a <= b * c`.
proof fn lemma_div_le(a: int, b: int, c: int)
    requires
        0 <= a,
        1 <= b,
        a <= b * c,
    ensures
        a / b <= c,
{
    vstd::arithmetic::div_mod::lemma_fundamental_div_mod(a, b);
    vstd::arithmetic::div_mod::lemma_mod_bound(a, b);
    assert(a / b <= c) by (nonlinear_arith)
        requires
            a == b * (a / b) + a % b,
            0 <= a % b,
            a <= b * c,
            1 <= b,
    ;
}

/// `a / b < c` follows from `a < b * c`.
proof fn lemma_div_lt(a: int, b: int, c: int)
    requires
        0 <= a,
        1 <= b,
        a < b * c,
    ensures
        a / b < c,
{
    vstd::arithmetic::div_mod::lemma_fundamental_div_mod(a, b);
    vstd::arithmetic::div_mod::lemma_mod_bound(a, b);
    assert(a / b < c) by (nonlinear_arith)
        requires
            a == b * (a / b) + a % b,
            0 <= a % b,
            a < b * c,
            1 <= b,
    ;
}

/// A normalized step moves the position by at most one tile per axis.
proof fn lemma_step_bound(fx: int, fy: int, sign: int, r: int)
    requires
        -1 <= sign <= 1,
        1 <= r,
    ensures
        -65536 <= step_vec(fx, fy, sign, r).0 <= 65536,
        -65536 <= step_vec(fx, fy, sign, r).1 <= 65536,
{
    let big: int = 72057594037927936;
    let gx = if abs_i(fx) > big || abs_i(fy) > big {
        tdiv(fx, 4294967296)
    } else {
        fx
    };
    let gy = if abs_i(fx) > big || abs_i(fy) > big {
        tdiv(fy, 4294967296)
    } else {
        fy
    };
    let d2 = gx * gx + gy * gy;
    assert(gx * gx >= 0 && gy * gy >= 0) by (nonlinear_arith);
    let n = sqrt_floor(d2 as nat) as int;
    if n != 0 {
        lemma_sqrt_floor_bounds(d2 as nat);
        assert(abs_i(gx) <= n && abs_i(gy) <= n) by (nonlinear_arith)
            requires
                gx * gx + gy * gy == d2,
                gx * gx >= 0,
                gy * gy >= 0,
                d2 < (n + 1) * (n + 1),
                n >= 1,
        ;
        assert(abs_i(65536 * sign * gx) <= 65536 * n && abs_i(65536 * sign * gy) <= 65536 * n)
            by (nonlinear_arith)
            requires
                -1 <= sign <= 1,
                abs_i(gx) <= n,
                abs_i(gy) <= n,
                n >= 1,
        ;
        assert(65536 * n <= (n * r) * 65536 && n * r >= 1) by (nonlinear_arith)
            requires
                n >= 1,
                r >= 1,
        ;
        lemma_tdiv_bound(65536 * sign * gx, n * r);
        lemma_tdiv_bound(65536 * sign * gy, n * r);
        lemma_div_le(abs_i(65536 * sign * gx), n * r, 65536);
        lemma_div_le(abs_i(65536 * sign * gy), n * r, 65536);
        assert(tdiv(65536 * sign * gx, n * r) == if 65536 * sign * gx >= 0 {
            abs_i(65536 * sign * gx) / (n * r)
        } else {
            -(abs_i(65536 * sign * gx) / (n * r))
        });
        assert(tdiv(65536 * sign * gy, n * r) == if 65536 * sign * gy >= 0 {
            abs_i(65536 * sign * gy) / (n * r)
        } else {
            -(abs_i(65536 * sign * gy) / (n * r))
        });
    }
}

/// The integer arctangent polynomial, for arguments in `[0, 1048576]`.
fn atn(z: i128) -> (r: i128)
    requires
        0 <= z <= 1048576,
    ensures
        r as int == atn_approx(z as int),
        0 <= r <= 1109811,
{
    proof {
        assert(0 <= 823550 * z * 1048576 <= 823550 * 1048576 * 1048576 && 0 <= 286261 * z * (
        1048576 - z) <= 286261 * 1048576 * 1048576) by (nonlinear_arith)
            requires
                0 <= z <= 1048576,
        ;
        lemma_tdiv_bound(
            823550 * z * 1048576 + 286261 * z * (1048576 - z),
            1099511627776,
        );
        lemma_div_le(
            (823550 * z * 1048576 + 286261 * z * (1048576 - z)) as int,
            1099511627776,
            1109811,
        );
        assert(823550 * 1048576 * 1048576 + 286261 * 1048576 * 1048576 <= 1099511627776
            * 1109811) by (nonlinear_arith);
    }
    div_trunc(823550 * z * 1048576 + 286261 * z * (1048576 - z), 1099511627776)
}

/// Round an angle times ten (units of `1 / 1048576`) to the nearest
/// integer bucket, halves away from zero.
fn round_ten(t: i128) -> (b: i64)
    requires
        -5000000 <= t <= 5000000,
    ensures
        b as int == round_angle(t as int),
        -49 <= b <= 49,
{
    if t >= 0 {
        proof {
            lemma_div_le((10 * t + 524288) as int, 1048576, 49);
            vstd::arithmetic::div_mod::lemma_div_pos_is_pos((10 * t + 524288) as int, 1048576);
        }
        div_trunc(10 * t + 524288, 1048576) as i64
    } else {
        proof {
            lemma_div_le((10 * (-t) + 524288) as int, 1048576, 49);
            vstd::arithmetic::div_mod::lemma_div_pos_is_pos((10 * (-t) + 524288) as int, 1048576);
        }
        -(div_trunc(10 * (-t) + 524288, 1048576) as i64)
    }
}

/// The direction bucket of a force vector.
pub fn angle_bucket(fx: i128, fy: i128) -> (b: i64)
    requires
        -100000000000000000000000000 <= fx <= 100000000000000000000000000,
        -100000000000000000000000000 <= fy <= 100000000000000000000000000,
    ensures
        b as int == bucket_spec(fx as int, fy as int),
        -49 <= b <= 49,
{
    if fx == 0 && fy == 0 {
        return 0;
    }
    let ax: i128 = if fx >= 0 {
        fx
    } else {
        -fx
    };
    let ay: i128 = if fy >= 0 {
        fy
    } else {
        -fy
    };
    let theta: i128 = if ax >= ay {
        proof {
            lemma_tdiv_bound((ay * 1048576) as int, ax as int);
            lemma_div_le((ay * 1048576) as int, ax as int, 1048576);
            assert(ay * 1048576 <= ax * 1048576) by (nonlinear_arith)
                requires
                    ay <= ax,
            ;
            assert(0 <= ay * 1048576 <= 110000000000000000000000000000000) by (nonlinear_arith)
                requires
                    0 <= ay <= 100000000000000000000000000,
            ;
        }
        atn(div_trunc(ay * 1048576, ax))
    } else {
        proof {
            lemma_tdiv_bound((ax * 1048576) as int, ay as int);
            lemma_div_le((ax * 1048576) as int, ay as int, 1048576);
            assert(ax * 1048576 <= ay * 1048576) by (nonlinear_arith)
                requires
                    ax <= ay,
            ;
            assert(0 <= ax * 1048576 <= 110000000000000000000000000000000) by (nonlinear_arith)
                requires
                    0 <= ax <= 100000000000000000000000000,
            ;
        }
        1647099 - atn(div_trunc(ax * 1048576, ay))
    };
    let signed: i128 = if fx >= 0 {
        if fy >= 0 {
            theta
        } else {
            -theta
        }
    } else {
        if fy >= 0 {
            3294199 - theta
        } else {
            -(3294199 - theta)
        }
    };
    round_ten(signed)
}

/// One normalized integer step along the sampled force.
fn norm_step(fx: i128, fy: i128, sign: i64, ratio: u8) -> (st: (i64, i64))
    requires
        -1 <= sign <= 1,
        1 <= ratio,
        -100000000000000000000000000 <= fx <= 100000000000000000000000000,
        -100000000000000000000000000 <= fy <= 100000000000000000000000000,
    ensures
        st.0 as int == step_vec(fx as int, fy as int, sign as int, ratio as int).0,
        st.1 as int == step_vec(fx as int, fy as int, sign as int, ratio as int).1,
        -65536 <= st.0 <= 65536,
        -65536 <= st.1 <= 65536,
{
    proof {
        lemma_step_bound(fx as int, fy as int, sign as int, ratio as int);
    }
    let big: i128 = 72057594037927936;
    let scale = fx > big || fx < -big || fy > big || fy < -big;
    let gx: i128 = if scale {
        div_trunc(fx, 4294967296)
    } else {
        fx
    };
    let gy: i128 = if scale {
        div_trunc(fy, 4294967296)
    } else {
        fy
    };
    proof {
        if scale {
            lemma_div_le(abs_i(fx as int), 4294967296, 30000000000000000);
            lemma_div_le(abs_i(fy as int), 4294967296, 30000000000000000);
            vstd::arithmetic::div_mod::lemma_div_pos_is_pos(abs_i(fx as int), 4294967296);
            vstd::arithmetic::div_mod::lemma_div_pos_is_pos(abs_i(fy as int), 4294967296);
        }
        assert(-72057594037927936 <= gx <= 72057594037927936 && -72057594037927936 <= gy
            <= 72057594037927936);
        assert(0 <= gx * gx <= 5192296858534827628530496329220096
            && 0 <= gy * gy <= 5192296858534827628530496329220096) by (nonlinear_arith)
            requires
                -72057594037927936 <= gx <= 72057594037927936,
                -72057594037927936 <= gy <= 72057594037927936,
        ;
    }
    let d2: i128 = gx * gx + gy * gy;
    let n: i128 = isqrt(d2 as u128) as i128;
    if n == 0 {
        (0, 0)
    } else {
        proof {
            assert(-6553600000000000000000000000000 <= 65536 * (sign as i128) * gx
                <= 6553600000000000000000000000000 && -6553600000000000000000000000000 <= 65536 * (
            sign as i128) * gy <= 6553600000000000000000000000000) by (nonlinear_arith)
                requires
                    -1 <= sign <= 1,
                    -100000000000000000000000000 <= gx <= 100000000000000000000000000,
                    -100000000000000000000000000 <= gy <= 100000000000000000000000000,
            ;
            assert(1 <= n * (ratio as i128) <= 18446744073709551615 * 256) by (nonlinear_arith)
                requires
                    1 <= n <= 18446744073709551615,
                    1 <= ratio as i128 <= 255,
            ;
        }
        let sx = div_trunc(65536 * (sign as i128) * gx, n * (ratio as i128));
        let sy = div_trunc(65536 * (sign as i128) * gy, n * (ratio as i128));
        (sx as i64, sy as i64)
    }
}

/// Every border entry names an in-bounds cell.
pub open spec fn entries_in_bounds(s: Seq<(i8, usize, usize)>, w: int, h: int) -> bool {
    forall|i: int| 0 <= i < s.len() ==> (#[trigger] s[i]).1 < w && s[i].2 < h
}

proof fn lemma_cell_borders_bounds(
    tiles: Seq<Seq<i8>>,
    w: int,
    h: int,
    cx: int,
    cy: int,
    k: int,
    acc: Seq<(i8, usize, usize)>,
)
    requires
        entries_in_bounds(acc, w, h),
    ensures
        entries_in_bounds(crate::borders::cell_borders(tiles, w, h, cx, cy, k, acc), w, h),
    decreases k,
{
    if k > 0 {
        lemma_cell_borders_bounds(tiles, w, h, cx, cy, k - 1, acc);
    }
}

proof fn lemma_borders_from_bounds(
    tiles: Seq<Seq<i8>>,
    w: int,
    h: int,
    charges: Seq<(usize, usize)>,
    acc: Seq<(i8, usize, usize)>,
)
    requires
        entries_in_bounds(acc, w, h),
    ensures
        entries_in_bounds(crate::borders::borders_from(tiles, w, h, charges, acc), w, h),
    decreases charges.len(),
{
    if charges.len() > 0 {
        lemma_cell_borders_bounds(
            tiles,
            w,
            h,
            charges[0].0 as int,
            charges[0].1 as int,
            8,
            acc,
        );
        lemma_borders_from_bounds(
            tiles,
            w,
            h,
            charges.subrange(1, charges.len() as int),
            crate::borders::cell_borders(tiles, w, h, charges[0].0 as int, charges[0].1 as int, 8, acc),
        );
    }
}

/// The border seeds all lie inside the grid.
pub proof fn lemma_borders_spec_bounds(tiles: Seq<Seq<i8>>, w: int, h: int)
    ensures
        entries_in_bounds(borders_spec(tiles, w, h), w, h),
{
    lemma_borders_from_bounds(
        tiles,
        w,
        h,
        crate::world::charged_seq(tiles, w, h),
        Seq::empty(),
    );
}

/// The cell index of a fixed-point coordinate in a capped range.
proof fn lemma_cell_range(p: int)
    requires
        -131072 <= p <= 268566528,
    ensures
        -2 <= p / 65536 <= 4098,
{
    vstd::arithmetic::div_mod::lemma_div_is_ordered(-131072, p, 65536);
    vstd::arithmetic::div_mod::lemma_div_is_ordered(p, 268566528, 65536);
    vstd::arithmetic::div_mod::lemma_fundamental_div_mod_converse(-131072, 65536, -2, 0);
    vstd::arithmetic::div_mod::lemma_fundamental_div_mod_converse(268566528, 65536, 4098, 0);
}

/// The bucket of the last recorded direction, as the specification sees
/// it.
pub open spec fn opt_view(o: Option<i64>) -> Option<int> {
    match o {
        None => None,
        Some(v) => Some(v as int),
    }
}

impl World {
    /// Trace one field line per border seed through the cached field and
    /// return the surviving polylines, in border order.  Points are
    /// fixed-point positions with 65536 per tile.
    pub fn calculate_lines(&self) -> (lines: Vec<Vec<(i64, i64)>>)
        requires
            self@.wf(),
        ensures
            lines@.map_values(|l: Vec<(i64, i64)>| l@) == lines_from(
                self@.tiles,
                self@.samples,
                self@.width,
                self@.height,
                self@.ratio,
                borders_spec(self@.tiles, self@.width, self@.height),
            ),
    {
        let borders = self.get_borders();
        let ghost bs = borders@;
        let ghost v = self@;
        let ratio: u8 = self.field.ratio;
        proof {
            crate::world::lemma_wf_limits(v);
            lemma_borders_spec_bounds(v.tiles, v.width, v.height);
            assert(bs.skip(0) =~= bs);
        }
        let wi: i32 = self.width as i32;
        let hi: i32 = self.height as i32;
        let mut lines: Vec<Vec<(i64, i64)>> = Vec::new();
        let mut i: usize = 0;
        while i < borders.len()
            invariant
                self@ == v,
                v.wf(),
                v.width <= 4096,
                v.height <= 4096,
                ratio as int == v.ratio,
                wi as int == v.width,
                hi as int == v.height,
                borders@ == bs,
                bs == borders_spec(v.tiles, v.width, v.height),
                entries_in_bounds(bs, v.width, v.height),
                i <= bs.len(),
                lines@.map_values(|l: Vec<(i64, i64)>| l@) + lines_from(
                    v.tiles,
                    v.samples,
                    v.width,
                    v.height,
                    v.ratio,
                    bs.skip(i as int),
                ) == lines_from(v.tiles, v.samples, v.width, v.height, v.ratio, bs),
            decreases bs.len() - i as int,
        {
            let (q, bx, by) = borders[i];
            proof {
                assert(bs[i as int].1 < v.width && bs[i as int].2 < v.height);
            }
            let sign: i64 = if q > 0 {
                1
            } else if q < 0 {
                -1
            } else {
                0
            };
            let mut px: i64 = (bx as i64) * 65536 + 32768;
            let mut py: i64 = (by as i64) * 65536 + 32768;
            let mut ox: i64 = px;
            let mut oy: i64 = py;
            let mut cellx: i32 = bx as i32;
            let mut celly: i32 = by as i32;
            let mut last: Option<i64> = None;
            let mut line: Vec<(i64, i64)> = Vec::new();
            let mut length: u32 = 0;
            let mut discarded = false;
            let ghost target = trace_line_spec(v.tiles, v.samples, v.width, v.height, v.ratio, bs[i as int]);
            proof {
                vstd::arithmetic::div_mod::lemma_fundamental_div_mod_converse(
                    px as int,
                    65536,
                    bx as int,
                    32768,
                );
                vstd::arithmetic::div_mod::lemma_fundamental_div_mod_converse(
                    py as int,
                    65536,
                    by as int,
                    32768,
                );
            }
            while 0 <= cellx && cellx < wi && 0 <= celly && celly < hi && length < 2000
                invariant_except_break
                    !discarded,
                invariant
                    self@ == v,
                    v.wf(),
                    v.width <= 4096,
                    v.height <= 4096,
                    ratio as int == v.ratio,
                    wi as int == v.width,
                    hi as int == v.height,
                    sign as int == crate::math::sgn(q as int),
                    -1 <= sign <= 1,
                    length <= 2000,
                    -131072 <= px <= 268566528,
                    -131072 <= py <= 268566528,
                    cellx as int == (px as int) / 65536,
                    celly as int == (py as int) / 65536,
                    trace_rec(
                        v.tiles,
                        v.samples,
                        v.width,
                        v.height,
                        v.ratio,
                        sign as int,
                        px,
                        py,
                        ox,
                        oy,
                        opt_view(last),
                        line@,
                        (2000 - length) as nat,
                    ) == target,
                ensures
                    discarded ==> target == None::<Seq<(i64, i64)>>,
                    !discarded ==> target == Some(line@.push((ox, oy))),
                decreases 2000 - length,
            {
                proof {
                    assert(self.tiles@.len() == v.tiles.len());
                    assert(self.tiles@[celly as int]@ == v.tiles[celly as int]);
                }
                let t: i8 = self.tiles[celly as usize][cellx as usize];
                if t != 0 {
                    proof {
                        assert(trace_rec(
                            v.tiles,
                            v.samples,
                            v.width,
                            v.height,
                            v.ratio,
                            sign as int,
                            px,
                            py,
                            ox,
                            oy,
                            opt_view(last),
                            line@,
                            (2000 - length) as nat,
                        ) == if (sign as int) < 0 {
                            None::<Seq<(i64, i64)>>
                        } else {
                            Some(line@.push((ox, oy)))
                        });
                    }
                    if sign < 0 {
                        discarded = true;
                    }
                    break ;
                }
                proof {
                    assert((px as int) >= 0 && (py as int) >= 0) by {
                        vstd::arithmetic::div_mod::lemma_div_pos_is_pos(px as int, 65536);
                        if px < 0 {
                            vstd::arithmetic::div_mod::lemma_fundamental_div_mod(px as int, 65536);
                            vstd::arithmetic::div_mod::lemma_mod_bound(px as int, 65536);
                            assert((px as int) / 65536 >= 0);
                            assert(px as int == 65536 * ((px as int) / 65536) + (px as int) % 65536);
                            assert(65536 * ((px as int) / 65536) >= 0) by (nonlinear_arith)
                                requires
                                    (px as int) / 65536 >= 0,
                            ;
                        }
                        if py < 0 {
                            vstd::arithmetic::div_mod::lemma_fundamental_div_mod(py as int, 65536);
                            vstd::arithmetic::div_mod::lemma_mod_bound(py as int, 65536);
                            assert(65536 * ((py as int) / 65536) >= 0) by (nonlinear_arith)
                                requires
                                    (py as int) / 65536 >= 0,
                            ;
                        }
                    }
                    assert((px as int) * (ratio as int) < 65536 * (v.width * v.ratio))
                        by (nonlinear_arith)
                        requires
                            0 <= px as int,
                            (px as int) / 65536 < v.width,
                            (px as int) < 65536 * ((px as int) / 65536) + 65536,
                            1 <= ratio as int <= 255,
                            ratio as int == v.ratio,
                            0 <= v.width,
                    ;
                    assert((py as int) * (ratio as int) < 65536 * (v.height * v.ratio))
                        by (nonlinear_arith)
                        requires
                            0 <= py as int,
                            (py as int) / 65536 < v.height,
                            (py as int) < 65536 * ((py as int) / 65536) + 65536,
                            1 <= ratio as int <= 255,
                            ratio as int == v.ratio,
                            0 <= v.height,
                    ;
                    assert((px as int) < 65536 * ((px as int) / 65536) + 65536 && (py as int)
                        < 65536 * ((py as int) / 65536) + 65536) by {
                        vstd::arithmetic::div_mod::lemma_fundamental_div_mod(px as int, 65536);
                        vstd::arithmetic::div_mod::lemma_mod_bound(px as int, 65536);
                        vstd::arithmetic::div_mod::lemma_fundamental_div_mod(py as int, 65536);
                        vstd::arithmetic::div_mod::lemma_mod_bound(py as int, 65536);
                    }
                    lemma_div_lt((px as int) * (ratio as int), 65536, v.width * v.ratio);
                    lemma_div_lt((py as int) * (ratio as int), 65536, v.height * v.ratio);
                    vstd::arithmetic::div_mod::lemma_div_pos_is_pos(
                        (px as int) * (ratio as int),
                        65536,
                    );
                    vstd::arithmetic::div_mod::lemma_div_pos_is_pos(
                        (py as int) * (ratio as int),
                        65536,
                    );
                    assert(0 <= (px as int) * (ratio as int) <= 268566528 * 255 && 0 <= (py as int)
                        * (ratio as int) <= 268566528 * 255) by (nonlinear_arith)
                        requires
                            0 <= px as int && (px as int) <= 268566528,
                            0 <= py as int && (py as int) <= 268566528,
                            1 <= ratio as int <= 255,
                    ;
                }
                let sxi: usize = (((px as u64) * (ratio as u64)) / 65536) as usize;
                let syi: usize = (((py as u64) * (ratio as u64)) / 65536) as usize;
                proof {
                    assert(self.field.grid@.len() == v.samples.len());
                    assert(self.field.grid@[syi as int]@ == v.samples[syi as int]);
                    lemma_rollback_dims(v.tiles, v.log, v.width, v.height);
                    assert(v.width * (2 * v.ratio) <= 100000 && v.height * (2 * v.ratio)
                        <= 100000) by (nonlinear_arith)
                        requires
                            v.width * v.ratio <= 4096,
                            v.height * v.ratio <= 4096,
                    ;
                    lemma_field_at_bound(
                        rollback(v.tiles, v.log),
                        v.width,
                        v.height,
                        v.ratio,
                        sxi as int,
                        syi as int,
                    );
                    assert(v.width * v.height * crate::field::contribution_bound()
                        <= 100000000000000000000000000) by (nonlinear_arith)
                        requires
                            1 <= v.ratio,
                            v.width * v.ratio <= 4096,
                            v.height * v.ratio <= 4096,
                            1 <= v.width,
                            1 <= v.height,
                    ;
                }
                let f: Sample = self.field.grid[syi][sxi];
                let b = angle_bucket(f.fx, f.fy);
                let record = match last {
                    None => true,
                    Some(lb) => lb != b,
                };
                if record {
                    line.push((px, py));
                    last = Some(b);
                }
                ox = px;
                oy = py;
                let st = norm_step(f.fx, f.fy, sign, ratio);
                let ghost (ppx, ppy) = (px, py);
                let ghost prev_line = line@;
                px = px + st.0;
                py = py + st.1;
                cellx = div_floor(px, 65536) as i32;
                celly = div_floor(py, 65536) as i32;
                proof {
                    lemma_cell_range(px as int);
                    lemma_cell_range(py as int);
                }
                length = length + 1;
            }
            proof {
                assert(bs.skip(i as int)[0] == bs[i as int]);
                assert(bs.skip(i as int).subrange(1, bs.skip(i as int).len() as int) =~= bs.skip(
                    i as int + 1,
                ));
            }
            if !discarded {
                line.push((ox, oy));
                proof {
                    assert(target == Some(line@));
                }
                let ghost lv = lines@.map_values(|l: Vec<(i64, i64)>| l@);
                lines.push(line);
                proof {
                    assert(lines@.map_values(|l: Vec<(i64, i64)>| l@) =~= lv.push(
                        lines@[lines@.len() - 1]@,
                    ));
                    assert(lv.push(lines@[lines@.len() - 1]@) + lines_from(
                        v.tiles,
                        v.samples,
                        v.width,
                        v.height,
                        v.ratio,
                        bs.skip(i as int + 1),
                    ) =~= lv + (seq![lines@[lines@.len() - 1]@] + lines_from(
                        v.tiles,
                        v.samples,
                        v.width,
                        v.height,
                        v.ratio,
                        bs.skip(i as int + 1),
                    )));
                }
            }
            i += 1;
        }
        proof {
            assert(bs.skip(bs.len() as int) =~= Seq::<(i8, usize, usize)>::empty());
            assert(lines@.map_values(|l: Vec<(i64, i64)>| l@) + Seq::<Seq<(i64, i64)>>::empty()
                =~= lines@.map_values(|l: Vec<(i64, i64)>| l@));
        }
        lines
    }
}

} // verus!
