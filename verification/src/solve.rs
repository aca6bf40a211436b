//! The incremental field solver.
//!
//! A solve folds the pending-change log into the cached field grid: for
//! every subcell and every logged entry it subtracts the contribution of
//! the entry's accounted charge and adds the contribution of the tile's
//! current charge, then clears the log.  Because the arithmetic is exact,
//! the cache ends up holding precisely the superposition field of the
//! current tiles — never an approximation of it.

use vstd::prelude::*;
use crate::field::{
    Sample, sample_val, add3, sub3, delta_c, contribution, cell_contribution, set_tile,
    tile_charge, grid_dims, field_at, lemma_field_at_update, lemma_set_tile,
    lemma_contribution_bound, lemma_field_at_bound, contribution_bound, get_field,
};
use crate::world::{
    World, WorldView, log_in_bounds, log_distinct, rollback, lemma_rollback_dims,
    lemma_log_len_bounded,
};

verus! {

/// What one pending entry changes in the field at subcell `(sx, sy)`: the
/// contribution of the tile's current charge minus the contribution of the
/// entry's accounted charge.
pub open spec fn delta_of(
    tiles: Seq<Seq<i8>>,
    e: (i8, usize, usize),
    r: int,
    sx: int,
    sy: int,
) -> (int, int, int) {
    sub3(
        contribution(
            tile_charge(tiles, e.1 as int, e.2 as int),
            delta_c(sx, e.1 as int, r),
            delta_c(sy, e.2 as int, r),
            r,
        ),
        contribution(e.0 as int, delta_c(sx, e.1 as int, r), delta_c(sy, e.2 as int, r), r),
    )
}

/// The total change a solve applies to the field at subcell `(sx, sy)`.
pub open spec fn log_delta(
    tiles: Seq<Seq<i8>>,
    log: Seq<(i8, usize, usize)>,
    r: int,
    sx: int,
    sy: int,
) -> (int, int, int)
    decreases log.len(),
{
    if log.len() == 0 {
        (0, 0, 0)
    } else {
        add3(
            delta_of(tiles, log[0], r, sx, sy),
            log_delta(tiles, log.subrange(1, log.len() as int), r, sx, sy),
        )
    }
}

proof fn lemma_log_delta_push(
    tiles: Seq<Seq<i8>>,
    log: Seq<(i8, usize, usize)>,
    e: (i8, usize, usize),
    r: int,
    sx: int,
    sy: int,
)
    ensures
        log_delta(tiles, log.push(e), r, sx, sy) == add3(
            log_delta(tiles, log, r, sx, sy),
            delta_of(tiles, e, r, sx, sy),
        ),
    decreases log.len(),
{
    let p = log.push(e);
    let prest = p.subrange(1, p.len() as int);
    assert(log_delta(tiles, p, r, sx, sy) == add3(
        delta_of(tiles, p[0], r, sx, sy),
        log_delta(tiles, prest, r, sx, sy),
    ));
    if log.len() == 0 {
        assert(p[0] == e);
        assert(prest =~= Seq::<(i8, usize, usize)>::empty());
        assert(log_delta(tiles, prest, r, sx, sy) == (0int, 0int, 0int));
        assert(log_delta(tiles, log, r, sx, sy) == (0int, 0int, 0int));
    } else {
        let rest = log.subrange(1, log.len() as int);
        assert(p[0] == log[0]);
        assert(prest =~= rest.push(e));
        lemma_log_delta_push(tiles, rest, e, r, sx, sy);
        assert(log_delta(tiles, log, r, sx, sy) == add3(
            delta_of(tiles, log[0], r, sx, sy),
            log_delta(tiles, rest, r, sx, sy),
        ));
    }
}

proof fn lemma_log_delta_agree(
    t1: Seq<Seq<i8>>,
    t2: Seq<Seq<i8>>,
    log: Seq<(i8, usize, usize)>,
    r: int,
    sx: int,
    sy: int,
)
    requires
        forall|i: int|
            0 <= i < log.len() ==> tile_charge(
                t1,
                (#[trigger] log[i]).1 as int,
                log[i].2 as int,
            ) == tile_charge(t2, log[i].1 as int, log[i].2 as int),
    ensures
        log_delta(t1, log, r, sx, sy) == log_delta(t2, log, r, sx, sy),
    decreases log.len(),
{
    if log.len() > 0 {
        let rest = log.subrange(1, log.len() as int);
        assert forall|i: int| 0 <= i < rest.len() implies tile_charge(
            t1,
            (#[trigger] rest[i]).1 as int,
            rest[i].2 as int,
        ) == tile_charge(t2, rest[i].1 as int, rest[i].2 as int) by {
            assert(rest[i] == log[i + 1]);
        }
        lemma_log_delta_agree(t1, t2, rest, r, sx, sy);
    }
}

/// Folding the whole log into the field of the accounted grid yields the
/// field of the current grid: the incremental solve is exact.
proof fn lemma_log_delta_total(
    tiles: Seq<Seq<i8>>,
    log: Seq<(i8, usize, usize)>,
    w: int,
    h: int,
    r: int,
    sx: int,
    sy: int,
)
    requires
        grid_dims(tiles, w, h),
        log_in_bounds(log, w, h),
        log_distinct(log),
    ensures
        add3(
            field_at(rollback(tiles, log), w, h, r, sx, sy),
            log_delta(tiles, log, r, sx, sy),
        ) == field_at(tiles, w, h, r, sx, sy),
    decreases log.len(),
{
    if log.len() > 0 {
        let e = log[0];
        let rest = log.subrange(1, log.len() as int);
        let te = set_tile(tiles, e.1 as int, e.2 as int, e.0);
        lemma_set_tile(tiles, w, h, e.1 as int, e.2 as int, e.0);
        lemma_log_delta_total(te, rest, w, h, r, sx, sy);
        assert forall|i: int| 0 <= i < rest.len() implies tile_charge(
            te,
            (#[trigger] rest[i]).1 as int,
            rest[i].2 as int,
        ) == tile_charge(tiles, rest[i].1 as int, rest[i].2 as int) by {
            assert(rest[i] == log[i + 1]);
            assert(!(log[i + 1].1 == e.1 && log[i + 1].2 == e.2));
        }
        lemma_log_delta_agree(te, tiles, rest, r, sx, sy);
        lemma_field_at_update(te, tiles, w, h, r, sx, sy, e.1 as int, e.2 as int);
        assert(cell_contribution(te, e.1 as int, e.2 as int, r, sx, sy) == contribution(
            e.0 as int,
            delta_c(sx, e.1 as int, r),
            delta_c(sy, e.2 as int, r),
            r,
        ));
    }
}

/// Magnitude bound on the pending change: at most two single-contribution
/// bounds per entry.
proof fn lemma_log_delta_bound(
    tiles: Seq<Seq<i8>>,
    log: Seq<(i8, usize, usize)>,
    w: int,
    h: int,
    r: int,
    sx: int,
    sy: int,
)
    requires
        1 <= r <= 255,
        log_in_bounds(log, w, h),
        1 <= w,
        1 <= h,
        w * r <= 4096,
        h * r <= 4096,
        0 <= sx,
        0 <= sy,
        2 * sx + 1 <= 100000,
        2 * sy + 1 <= 100000,
    ensures
        -(2 * log.len() * contribution_bound()) <= log_delta(tiles, log, r, sx, sy).0 <= 2
            * log.len() * contribution_bound(),
        -(2 * log.len() * contribution_bound()) <= log_delta(tiles, log, r, sx, sy).1 <= 2
            * log.len() * contribution_bound(),
        -(2 * log.len() * contribution_bound()) <= log_delta(tiles, log, r, sx, sy).2 <= 2
            * log.len() * contribution_bound(),
    decreases log.len(),
{
    if log.len() == 0 {
    } else {
        let e = log[0];
        let rest = log.subrange(1, log.len() as int);
        lemma_log_delta_bound(tiles, rest, w, h, r, sx, sy);
        let cx = e.1 as int;
        let cy = e.2 as int;
        assert(0 <= (2 * cx + 1) * r <= 100000 && 0 <= (2 * cy + 1) * r <= 100000)
            by (nonlinear_arith)
            requires
                0 <= cx < w,
                0 <= cy < h,
                1 <= r,
                w * r <= 4096,
                h * r <= 4096,
        ;
        lemma_contribution_bound(
            tile_charge(tiles, cx, cy),
            delta_c(sx, cx, r),
            delta_c(sy, cy, r),
            r,
        );
        lemma_contribution_bound(e.0 as int, delta_c(sx, cx, r), delta_c(sy, cy, r), r);
        assert(2 * rest.len() * contribution_bound() + 2 * contribution_bound() == 2 * log.len()
            * contribution_bound()) by (nonlinear_arith)
            requires
                rest.len() == log.len() - 1,
        ;
    }
}

impl World {
    /// Fold every pending change into the cached field grid and clear the
    /// log.  Afterwards every sample holds exactly the superposition field
    /// of the current charges; a solve with an empty log leaves the grid
    /// bit-for-bit unchanged.
    pub fn calculate_field(&mut self)
        requires
            old(self)@.wf(),
        ensures
            final(self)@.wf(),
            final(self)@.width == old(self)@.width,
            final(self)@.height == old(self)@.height,
            final(self)@.ratio == old(self)@.ratio,
            final(self)@.tiles == old(self)@.tiles,
            final(self)@.log.len() == 0,
            forall|sx: int, sy: int|
                0 <= sx < final(self)@.width * final(self)@.ratio && 0 <= sy < final(self)@.height
                    * final(self)@.ratio ==> sample_val(#[trigger] final(self)@.samples[sy][sx])
                    == field_at(
                    old(self)@.tiles,
                    old(self)@.width,
                    old(self)@.height,
                    old(self)@.ratio,
                    sx,
                    sy,
                ),
            old(self)@.log.len() == 0 ==> final(self)@.samples == old(self)@.samples,
    {
        let ghost oldv = self@;
        let ratio: u8 = self.field.ratio;
        let wr: usize = (self.width as usize) * (ratio as usize);
        let hr: usize = (self.height as usize) * (ratio as usize);
        let n: usize = self.updated_tiles.len();
        proof {
            lemma_log_len_bounded(oldv.log, oldv.width, oldv.height);
            lemma_rollback_dims(oldv.tiles, oldv.log, oldv.width, oldv.height);
            assert(oldv.width * oldv.height <= 4096 * 4096) by (nonlinear_arith)
                requires
                    1 <= oldv.ratio,
                    oldv.width * oldv.ratio <= 4096,
                    oldv.height * oldv.ratio <= 4096,
                    1 <= oldv.width,
                    1 <= oldv.height,
            ;
        }
        let mut sx: usize = 0;
        while sx < wr
            invariant
                self@.width == oldv.width,
                self@.height == oldv.height,
                self@.ratio == oldv.ratio,
                self@.tiles == oldv.tiles,
                self@.log == oldv.log,
                oldv.wf(),
                ratio as int == oldv.ratio,
                wr as int == oldv.width * oldv.ratio,
                hr as int == oldv.height * oldv.ratio,
                n == oldv.log.len(),
                sx <= wr,
                self@.samples.len() == hr as int,
                forall|b: int|
                    0 <= b < hr as int ==> (#[trigger] self@.samples[b]).len() == wr as int,
                forall|a: int, b: int|
                    0 <= a < sx as int && 0 <= b < hr as int ==> sample_val(
                        #[trigger] self@.samples[b][a],
                    ) == field_at(oldv.tiles, oldv.width, oldv.height, oldv.ratio, a, b),
                forall|a: int, b: int|
                    sx as int <= a < wr as int && 0 <= b < hr as int ==> #[trigger] self@.samples[b][a]
                        == oldv.samples[b][a],
            decreases wr as int - sx as int,
        {
            let mut sy: usize = 0;
            while sy < hr
                invariant
                    self@.width == oldv.width,
                    self@.height == oldv.height,
                    self@.ratio == oldv.ratio,
                    self@.tiles == oldv.tiles,
                    self@.log == oldv.log,
                    oldv.wf(),
                    ratio as int == oldv.ratio,
                    wr as int == oldv.width * oldv.ratio,
                    hr as int == oldv.height * oldv.ratio,
                    n == oldv.log.len(),
                    sx < wr,
                    sy <= hr,
                    self@.samples.len() == hr as int,
                    forall|b: int|
                        0 <= b < hr as int ==> (#[trigger] self@.samples[b]).len() == wr as int,
                    forall|a: int, b: int|
                        0 <= a < sx as int && 0 <= b < hr as int ==> sample_val(
                            #[trigger] self@.samples[b][a],
                        ) == field_at(oldv.tiles, oldv.width, oldv.height, oldv.ratio, a, b),
                    forall|b: int|
                        0 <= b < sy as int ==> sample_val(#[trigger] self@.samples[b][sx as int])
                            == field_at(oldv.tiles, oldv.width, oldv.height, oldv.ratio, sx as int, b),
                    forall|b: int|
                        sy as int <= b < hr as int ==> #[trigger] self@.samples[b][sx as int]
                            == oldv.samples[b][sx as int],
                    forall|a: int, b: int|
                        (sx as int) < a && a < wr as int && 0 <= b < hr as int ==> #[trigger] self@.samples[b][a]
                            == oldv.samples[b][a],
                decreases hr as int - sy as int,
            {
                proof {
                    assert(self.field.grid@.len() == self@.samples.len());
                    assert(self.field.grid@[sy as int]@ == self@.samples[sy as int]);
                }
                let cur: Sample = self.field.grid[sy][sx];
                let mut fx: i128 = cur.fx;
                let mut fy: i128 = cur.fy;
                let mut pot: i128 = cur.pot;
                proof {
                    assert(cur == oldv.samples[sy as int][sx as int]);
                    assert(oldv.log.take(0) =~= Seq::<(i8, usize, usize)>::empty());
                    lemma_log_len_bounded(oldv.log, oldv.width, oldv.height);
                    assert(oldv.width * oldv.height <= 4096 * 4096) by (nonlinear_arith)
                        requires
                            1 <= oldv.ratio,
                            oldv.width * oldv.ratio <= 4096,
                            oldv.height * oldv.ratio <= 4096,
                            1 <= oldv.width,
                            1 <= oldv.height,
                    ;
                    assert(oldv.width * (2 * oldv.ratio) <= 100000 && oldv.height * (2
                        * oldv.ratio) <= 100000) by (nonlinear_arith)
                        requires
                            oldv.width * oldv.ratio <= 4096,
                            oldv.height * oldv.ratio <= 4096,
                    ;
                    lemma_field_at_bound(
                        rollback(oldv.tiles, oldv.log),
                        oldv.width,
                        oldv.height,
                        oldv.ratio,
                        sx as int,
                        sy as int,
                    );
                    assert(oldv.width * oldv.height * contribution_bound() <= 4096 * 4096
                        * contribution_bound()) by (nonlinear_arith)
                        requires
                            oldv.width * oldv.height <= 4096 * 4096,
                            0 < contribution_bound(),
                    ;
                }
                let mut k: usize = 0;
                while k < n
                    invariant
                        self@.width == oldv.width,
                        self@.height == oldv.height,
                        self@.ratio == oldv.ratio,
                        self@.tiles == oldv.tiles,
                        self@.log == oldv.log,
                        oldv.wf(),
                        ratio as int == oldv.ratio,
                        wr as int == oldv.width * oldv.ratio,
                        hr as int == oldv.height * oldv.ratio,
                        n == oldv.log.len(),
                        sx < wr,
                        sy < hr,
                        k <= n,
                        oldv.width * oldv.height <= 4096 * 4096,
                        n as int <= oldv.width * oldv.height,
                        sample_val(oldv.samples[sy as int][sx as int]) == field_at(
                            rollback(oldv.tiles, oldv.log),
                            oldv.width,
                            oldv.height,
                            oldv.ratio,
                            sx as int,
                            sy as int,
                        ),
                        -(4096 * 4096 * contribution_bound()) <= field_at(
                            rollback(oldv.tiles, oldv.log),
                            oldv.width,
                            oldv.height,
                            oldv.ratio,
                            sx as int,
                            sy as int,
                        ).0 <= 4096 * 4096 * contribution_bound(),
                        -(4096 * 4096 * contribution_bound()) <= field_at(
                            rollback(oldv.tiles, oldv.log),
                            oldv.width,
                            oldv.height,
                            oldv.ratio,
                            sx as int,
                            sy as int,
                        ).1 <= 4096 * 4096 * contribution_bound(),
                        -(4096 * 4096 * contribution_bound()) <= field_at(
                            rollback(oldv.tiles, oldv.log),
                            oldv.width,
                            oldv.height,
                            oldv.ratio,
                            sx as int,
                            sy as int,
                        ).2 <= 4096 * 4096 * contribution_bound(),
                        (fx as int, fy as int, pot as int) == add3(
                            sample_val(oldv.samples[sy as int][sx as int]),
                            log_delta(
                                oldv.tiles,
                                oldv.log.take(k as int),
                                oldv.ratio,
                                sx as int,
                                sy as int,
                            ),
                        ),
                    decreases n as int - k as int,
                {
                    let ghost prefix = oldv.log.take(k as int);
                    let e = self.updated_tiles[k];
                    let (old_charge, cx, cy) = e;
                    proof {
                        assert(oldv.log[k as int].1 < oldv.width && oldv.log[k as int].2
                            < oldv.height);
                        assert(self.tiles@.len() == self@.tiles.len());
                        assert(self.tiles@[cy as int]@ == self@.tiles[cy as int]);
                    }
                    let charge: i8 = self.tiles[cy][cx];
                    proof {
                        assert((2 * cx as int + 1) * oldv.ratio <= 8192 && 0 <= (2 * cx as int + 1)
                            * oldv.ratio) by (nonlinear_arith)
                            requires
                                0 <= cx as int && (cx as int) < oldv.width,
                                1 <= oldv.ratio,
                                oldv.width * oldv.ratio <= 4096,
                        ;
                        assert((2 * cy as int + 1) * oldv.ratio <= 8192 && 0 <= (2 * cy as int + 1)
                            * oldv.ratio) by (nonlinear_arith)
                            requires
                                0 <= cy as int && (cy as int) < oldv.height,
                                1 <= oldv.ratio,
                                oldv.height * oldv.ratio <= 4096,
                        ;
                    }
                    let u: i64 = 2 * (sx as i64) + 1 - (2 * (cx as i64) + 1) * (ratio as i64);
                    let v: i64 = 2 * (sy as i64) + 1 - (2 * (cy as i64) + 1) * (ratio as i64);
                    proof {
                        lemma_log_delta_bound(
                            oldv.tiles,
                            prefix,
                            oldv.width,
                            oldv.height,
                            oldv.ratio,
                            sx as int,
                            sy as int,
                        );
                        assert(2 * prefix.len() * contribution_bound() <= 2 * (4096 * 4096)
                            * contribution_bound()) by (nonlinear_arith)
                            requires
                                prefix.len() <= 4096 * 4096,
                                0 < contribution_bound(),
                        ;
                        lemma_contribution_bound(
                            charge as int,
                            u as int,
                            v as int,
                            oldv.ratio,
                        );
                        lemma_contribution_bound(
                            old_charge as int,
                            u as int,
                            v as int,
                            oldv.ratio,
                        );
                    }
                    if old_charge != 0 {
                        let s = get_field(old_charge, u, v, ratio);
                        fx = fx - s.fx;
                        fy = fy - s.fy;
                        pot = pot - s.pot;
                    }
                    if charge != 0 {
                        let s = get_field(charge, u, v, ratio);
                        fx = fx + s.fx;
                        fy = fy + s.fy;
                        pot = pot + s.pot;
                    }
                    proof {
                        assert(oldv.log.take(k as int + 1) =~= prefix.push(oldv.log[k as int]));
                        lemma_log_delta_push(
                            oldv.tiles,
                            prefix,
                            oldv.log[k as int],
                            oldv.ratio,
                            sx as int,
                            sy as int,
                        );
                        assert(tile_charge(oldv.tiles, cx as int, cy as int) == charge as int);
                        assert(delta_c(sx as int, cx as int, oldv.ratio) == u as int);
                        assert(delta_c(sy as int, cy as int, oldv.ratio) == v as int);
                    }
                    k += 1;
                }
                proof {
                    assert(oldv.log.take(n as int) =~= oldv.log);
                    lemma_log_delta_total(
                        oldv.tiles,
                        oldv.log,
                        oldv.width,
                        oldv.height,
                        oldv.ratio,
                        sx as int,
                        sy as int,
                    );
                    assert((fx as int, fy as int, pot as int) == field_at(
                        oldv.tiles,
                        oldv.width,
                        oldv.height,
                        oldv.ratio,
                        sx as int,
                        sy as int,
                    ));
                }
                let ghost before = self@.samples;
                self.field.grid[sy][sx] = Sample { fx, fy, pot };
                proof {
                    assert(self@.samples =~~= before.update(
                        sy as int,
                        before[sy as int].update(sx as int, Sample { fx, fy, pot }),
                    ));
                }
                sy += 1;
            }
            sx += 1;
        }
        self.updated_tiles = Vec::new();
        proof {
            lemma_solve_final(oldv, self@);
        }
    }
}

/// After the sweep the cached samples hold the field of the current tiles,
/// which re-establishes well-formedness with an empty log; with an empty
/// log the sweep changed nothing at all.
proof fn lemma_solve_final(oldv: WorldView, newv: WorldView)
    requires
        oldv.wf(),
        newv.width == oldv.width,
        newv.height == oldv.height,
        newv.ratio == oldv.ratio,
        newv.tiles == oldv.tiles,
        newv.log.len() == 0,
        newv.samples.len() == oldv.height * oldv.ratio,
        forall|b: int|
            0 <= b < newv.samples.len() ==> (#[trigger] newv.samples[b]).len() == oldv.width
                * oldv.ratio,
        forall|a: int, b: int|
            0 <= a < oldv.width * oldv.ratio && 0 <= b < oldv.height * oldv.ratio ==> sample_val(
                #[trigger] newv.samples[b][a],
            ) == field_at(oldv.tiles, oldv.width, oldv.height, oldv.ratio, a, b),
    ensures
        newv.wf(),
        oldv.log.len() == 0 ==> newv.samples == oldv.samples,
{
    assert(rollback(newv.tiles, newv.log) == newv.tiles);
    if oldv.log.len() == 0 {
        assert(rollback(oldv.tiles, oldv.log) == oldv.tiles);
        assert forall|b: int| 0 <= b < newv.samples.len() implies #[trigger] newv.samples[b]
            == oldv.samples[b] by {
            assert forall|a: int| 0 <= a < newv.samples[b].len() implies #[trigger] newv.samples[b][a]
                == oldv.samples[b][a] by {
                assert(sample_val(newv.samples[b][a]) == sample_val(oldv.samples[b][a]));
            }
            assert(newv.samples[b] =~= oldv.samples[b]);
        }
        assert(newv.samples =~= oldv.samples);
    }
}

} // verus!
