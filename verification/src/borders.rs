//! The border finder: seed points for field-line tracing.
//!
//! For every charged cell, each in-bounds neighbour of its 8-connected
//! (Moore) neighbourhood that is itself neutral yields an entry
//! `(charge, nx, ny)`, deduplicated by the full triple in first-seen
//! order — two different charges bordering the same empty cell each keep
//! their own entry, since each seeds its own field line.

use vstd::prelude::*;
use crate::field::tile_charge;
use crate::world::{World, charged_seq};

verus! {

/// The Moore neighbourhood offsets, in the order they are scanned.
pub open spec fn moore_dirs() -> Seq<(int, int)> {
    seq![(-1, 0), (1, 0), (0, -1), (0, 1), (1, 1), (1, -1), (-1, 1), (-1, -1)]
}

/// Extend `acc` with the border entry of one neighbour of the charged
/// cell `(cx, cy)` holding charge `q`, unless the neighbour is out of
/// bounds, charged, or the exact triple is already present.
pub open spec fn border_dir_step(
    tiles: Seq<Seq<i8>>,
    w: int,
    h: int,
    q: i8,
    cx: int,
    cy: int,
    d: (int, int),
    acc: Seq<(i8, usize, usize)>,
) -> Seq<(i8, usize, usize)> {
    let nx = cx + d.0;
    let ny = cy + d.1;
    if 0 <= nx && nx < w && 0 <= ny && ny < h && tile_charge(tiles, nx, ny) == 0 && !acc.contains(
        (q, nx as usize, ny as usize),
    ) {
        acc.push((q, nx as usize, ny as usize))
    } else {
        acc
    }
}

/// Border entries contributed by the first `k` neighbours of charged cell
/// `(cx, cy)`.
pub open spec fn cell_borders(
    tiles: Seq<Seq<i8>>,
    w: int,
    h: int,
    cx: int,
    cy: int,
    k: int,
    acc: Seq<(i8, usize, usize)>,
) -> Seq<(i8, usize, usize)>
    decreases k,
{
    if k <= 0 {
        acc
    } else {
        border_dir_step(
            tiles,
            w,
            h,
            tiles[cy][cx],
            cx,
            cy,
            moore_dirs()[k - 1],
            cell_borders(tiles, w, h, cx, cy, k - 1, acc),
        )
    }
}

/// Border entries of all the given charged cells, processed in order.
pub open spec fn borders_from(
    tiles: Seq<Seq<i8>>,
    w: int,
    h: int,
    charges: Seq<(usize, usize)>,
    acc: Seq<(i8, usize, usize)>,
) -> Seq<(i8, usize, usize)>
    decreases charges.len(),
{
    if charges.len() == 0 {
        acc
    } else {
        borders_from(
            tiles,
            w,
            h,
            charges.subrange(1, charges.len() as int),
            cell_borders(tiles, w, h, charges[0].0 as int, charges[0].1 as int, 8, acc),
        )
    }
}

/// All border entries of the grid, in first-seen order.
pub open spec fn borders_spec(tiles: Seq<Seq<i8>>, w: int, h: int) -> Seq<(i8, usize, usize)> {
    borders_from(tiles, w, h, charged_seq(tiles, w, h), Seq::empty())
}

/// What a border entry promises: an in-bounds neutral cell next to (in
/// the 8-connected sense) a charged cell that holds exactly the entry's
/// charge.
pub open spec fn border_entry_ok(tiles: Seq<Seq<i8>>, w: int, h: int, e: (i8, usize, usize)) -> bool {
    &&& (e.1 as int) < w
    &&& (e.2 as int) < h
    &&& tile_charge(tiles, e.1 as int, e.2 as int) == 0
    &&& e.0 != 0
    &&& exists|cx: int, cy: int|
        0 <= cx < w && 0 <= cy < h && #[trigger] tile_charge(tiles, cx, cy) == e.0 as int
            && -1 <= cx - e.1 as int <= 1 && -1 <= cy - e.2 as int <= 1 && !(cx == e.1 as int && cy
            == e.2 as int)
}

/// Soundness and distinctness of an accumulator: used below to carry the
/// guarantee through the folds.
pub open spec fn borders_ok(tiles: Seq<Seq<i8>>, w: int, h: int, s: Seq<(i8, usize, usize)>) -> bool {
    &&& forall|i: int| 0 <= i < s.len() ==> border_entry_ok(tiles, w, h, #[trigger] s[i])
    &&& s.no_duplicates()
}

proof fn lemma_cell_borders_ok(
    tiles: Seq<Seq<i8>>,
    w: int,
    h: int,
    cx: int,
    cy: int,
    k: int,
    acc: Seq<(i8, usize, usize)>,
)
    requires
        borders_ok(tiles, w, h, acc),
        w <= 4096,
        h <= 4096,
        0 <= cx < w,
        0 <= cy < h,
        tile_charge(tiles, cx, cy) != 0,
        k <= 8,
    ensures
        borders_ok(tiles, w, h, cell_borders(tiles, w, h, cx, cy, k, acc)),
    decreases k,
{
    if k > 0 {
        lemma_cell_borders_ok(tiles, w, h, cx, cy, k - 1, acc);
        let prev = cell_borders(tiles, w, h, cx, cy, k - 1, acc);
        let full = cell_borders(tiles, w, h, cx, cy, k, acc);
        let d = moore_dirs()[k - 1];
        let nx = cx + d.0;
        let ny = cy + d.1;
        if 0 <= nx && nx < w && 0 <= ny && ny < h && tile_charge(tiles, nx, ny) == 0
            && !prev.contains((tiles[cy][cx], nx as usize, ny as usize)) {
            let e = (tiles[cy][cx], nx as usize, ny as usize);
            assert(border_entry_ok(tiles, w, h, e)) by {
                assert(moore_dirs()[0] == (-1int, 0int) && moore_dirs()[1] == (1int, 0int)
                    && moore_dirs()[2] == (0int, -1int) && moore_dirs()[3] == (0int, 1int)
                    && moore_dirs()[4] == (1int, 1int) && moore_dirs()[5] == (1int, -1int)
                    && moore_dirs()[6] == (-1int, 1int) && moore_dirs()[7] == (-1int, -1int));
                assert(-1 <= d.0 <= 1 && -1 <= d.1 <= 1 && !(d.0 == 0 && d.1 == 0));
                assert(e.1 as int == nx && e.2 as int == ny);
                assert(tile_charge(tiles, cx, cy) == e.0 as int && 0 <= cx < w && 0 <= cy < h
                    && -1 <= cx - e.1 as int <= 1 && -1 <= cy - e.2 as int <= 1 && !(cx
                    == e.1 as int && cy == e.2 as int));
            }
            assert(full.no_duplicates()) by {
                assert forall|i: int, j: int| 0 <= i < j < full.len() implies full[i] != full[j] by {
                    if j == full.len() - 1 {
                        assert(prev.contains(prev[i]));
                    }
                }
            }
        }
    }
}

proof fn lemma_borders_from_ok(
    tiles: Seq<Seq<i8>>,
    w: int,
    h: int,
    charges: Seq<(usize, usize)>,
    acc: Seq<(i8, usize, usize)>,
)
    requires
        borders_ok(tiles, w, h, acc),
        w <= 4096,
        h <= 4096,
        forall|i: int|
            0 <= i < charges.len() ==> ((#[trigger] charges[i]).0 as int) < w && (
            charges[i].1 as int) < h && tile_charge(tiles, charges[i].0 as int, charges[i].1 as int)
                != 0,
    ensures
        borders_ok(tiles, w, h, borders_from(tiles, w, h, charges, acc)),
    decreases charges.len(),
{
    if charges.len() > 0 {
        let c = charges[0];
        lemma_cell_borders_ok(tiles, w, h, c.0 as int, c.1 as int, 8, acc);
        let rest = charges.subrange(1, charges.len() as int);
        assert forall|i: int| 0 <= i < rest.len() implies ((#[trigger] rest[i]).0 as int) < w && (
        rest[i].1 as int) < h && tile_charge(tiles, rest[i].0 as int, rest[i].1 as int) != 0 by {
            assert(rest[i] == charges[i + 1]);
        }
        lemma_borders_from_ok(
            tiles,
            w,
            h,
            rest,
            cell_borders(tiles, w, h, c.0 as int, c.1 as int, 8, acc),
        );
    }
}

/// Every border entry is sound — an in-bounds neutral cell 8-adjacent to a
/// charged cell holding the entry's charge — and no exact triple appears
/// twice.
pub proof fn lemma_borders_sound(tiles: Seq<Seq<i8>>, w: int, h: int)
    requires
        0 <= w <= 4096,
        0 <= h <= 4096,
    ensures
        borders_ok(tiles, w, h, borders_spec(tiles, w, h)),
{
    crate::world::lemma_charged_cells_exact(tiles, w, h);
    let chs = crate::world::charged_seq(tiles, w, h);
    assert forall|i: int| 0 <= i < chs.len() implies ((#[trigger] chs[i]).0 as int) < w && (
    chs[i].1 as int) < h && tile_charge(tiles, chs[i].0 as int, chs[i].1 as int) != 0 by {
        assert(chs.contains(chs[i]));
    }
    lemma_borders_from_ok(tiles, w, h, chs, Seq::empty());
}

/// The `j`-th Moore neighbourhood offset.
fn moore_dir(j: usize) -> (d: (i32, i32))
    requires
        j < 8,
    ensures
        d.0 as int == moore_dirs()[j as int].0,
        d.1 as int == moore_dirs()[j as int].1,
{
    if j == 0 {
        (-1, 0)
    } else if j == 1 {
        (1, 0)
    } else if j == 2 {
        (0, -1)
    } else if j == 3 {
        (0, 1)
    } else if j == 4 {
        (1, 1)
    } else if j == 5 {
        (1, -1)
    } else if j == 6 {
        (-1, 1)
    } else {
        (-1, -1)
    }
}

impl World {
    /// The uncharged cells 8-adjacent to charged cells, each paired with
    /// the adjacent cell's charge, deduplicated by the full triple in
    /// first-seen order.
    pub fn get_borders(&self) -> (borders: Vec<(i8, usize, usize)>)
        requires
            self@.wf(),
        ensures
            borders@ == borders_spec(self@.tiles, self@.width, self@.height),
    {
        let charges = self.get_charges();
        let ghost chs = charges@;
        let mut borders: Vec<(i8, usize, usize)> = Vec::new();
        proof {
            assert(chs.skip(0) =~= chs);
        }
        let mut i: usize = 0;
        while i < charges.len()
            invariant
                self@.wf(),
                chs == charged_seq(self@.tiles, self@.width, self@.height),
                charges@ == chs,
                i <= chs.len(),
                borders_from(
                    self@.tiles,
                    self@.width,
                    self@.height,
                    chs.skip(i as int),
                    borders@,
                ) == borders_spec(self@.tiles, self@.width, self@.height),
            decreases chs.len() - i as int,
        {
            let (cx, cy) = charges[i];
            proof {
                crate::world::lemma_wf_limits(self@);
                crate::world::lemma_charged_cells_exact(self@.tiles, self@.width, self@.height);
                assert(chs.contains(chs[i as int]));
                assert(self.tiles@.len() == self@.tiles.len());
                assert(self.tiles@[cy as int]@ == self@.tiles[cy as int]);
            }
            let q: i8 = self.tiles[cy][cx];
            let ghost acc0 = borders@;
            let mut j: usize = 0;
            while j < 8
                invariant
                    self@.wf(),
                    j <= 8,
                    (cx as int) < self@.width,
                    (cy as int) < self@.height,
                    self@.width <= 4096,
                    self@.height <= 4096,
                    q == tile_charge(self@.tiles, cx as int, cy as int),
                    borders@ == cell_borders(
                        self@.tiles,
                        self@.width,
                        self@.height,
                        cx as int,
                        cy as int,
                        j as int,
                        acc0,
                    ),
                decreases 8 - j as int,
            {
                let d = moore_dir(j);
                let nx: i32 = cx as i32 + d.0;
                let ny: i32 = cy as i32 + d.1;
                proof {
                    crate::world::lemma_wf_limits(self@);
                }
                if self.in_bounds(nx, ny) {
                    proof {
                        assert(self.tiles@[ny as int]@ == self@.tiles[ny as int]);
                        assert(self.tiles@.len() == self@.tiles.len());
                    }
                    if self.tiles[ny as usize][nx as usize] == 0 {
                        let nxu = nx as usize;
                        let nyu = ny as usize;
                        let mut present = false;
                        let mut b: usize = 0;
                        let n = borders.len();
                        while b < n
                            invariant
                                n == borders@.len(),
                                b <= n,
                                present ==> borders@.contains((q, nxu, nyu)),
                                !present ==> forall|t: int|
                                    0 <= t < b as int ==> #[trigger] borders@[t] != (q, nxu, nyu),
                            decreases n as int - b as int,
                        {
                            let e = borders[b];
                            if e.0 == q && e.1 == nxu && e.2 == nyu {
                                present = true;
                            }
                            b += 1;
                        }
                        proof {
                            if !present {
                                if borders@.contains((q, nxu, nyu)) {
                                    let t = choose|t: int|
                                        0 <= t < borders@.len() && borders@[t] == (q, nxu, nyu);
                                }
                            }
                        }
                        if !present {
                            borders.push((q, nxu, nyu));
                        }
                    }
                }
                j += 1;
            }
            proof {
                assert(chs.skip(i as int)[0] == chs[i as int]);
                assert(chs.skip(i as int).subrange(1, chs.skip(i as int).len() as int) =~= chs.skip(
                    i as int + 1,
                ));
            }
            i += 1;
        }
        proof {
            assert(chs.skip(chs.len() as int) =~= Seq::<(usize, usize)>::empty());
        }
        borders
    }
}

} // verus!
