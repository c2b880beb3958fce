//! The generation loop: repeatedly take the most constrained pending cell,
//! place a matching tile there and narrow its unresolved neighbours, or roll
//! back a neighbourhood when nothing matches.

use vstd::prelude::*;
use crate::catalog::{TileHandle, TileSet, TileSpec, choose_spec, count_matching, lemma_count_zero};
use crate::constraint::{
    Constraint,
    constraint_add,
    lemma_match_propagated_range,
    match_spec,
    propagate_spec,
    unconstrained,
    unconstrained_spec,
};
use crate::frontier::{Frontier, lemma_index_cell, lemma_count_present_zero};
use crate::grid::{Dir, Grid, cell_index, dir_di, dir_dj, idx_in_dir, lemma_cell_index, step_in_bounds};
use crate::krand::{add32, mul32};

verus! {

/// Row multiplier of the per-cell seed.
pub const SEED_ROW_MUL: u32 = 0xF686CB1A;

/// Generation multiplier of the per-cell seed.
pub const SEED_GEN_MUL: u32 = 0xCB497A23;

/// Generations below this retry with a radius-1 rollback.
pub const SMALL_ROLLBACK_LIMIT: u32 = 100;

/// Generations below this (and not below the small limit) retry with a
/// radius-2 rollback; from here on a cell fails for good.
pub const MED_ROLLBACK_LIMIT: u32 = 1000;

/// The seed of the draw for cell `(i, j)` in its generation `gen`, all
/// arithmetic modulo 2^32.
pub open spec fn cell_seed_spec(seed: u32, i: u32, j: u32, gen: u32) -> u32 {
    add32(add32(add32(seed, i), mul32(SEED_ROW_MUL, j)), mul32(gen, SEED_GEN_MUL))
}

/// The seed of the draw for cell `(i, j)` in its generation `gen`.
pub fn cell_seed(seed: u32, i: u32, j: u32, gen: u32) -> (r: u32)
    ensures
        r == cell_seed_spec(seed, i, j, gen),
{
    seed.wrapping_add(i).wrapping_add(SEED_ROW_MUL.wrapping_mul(j)).wrapping_add(
        gen.wrapping_mul(SEED_GEN_MUL),
    )
}

/// A generation counter after one more rollback; it stops at `u32::MAX`,
/// far beyond the last tier.
pub open spec fn bump(g: u32) -> u32 {
    if g < u32::MAX {
        (g + 1) as u32
    } else {
        g
    }
}

/// A statistics counter after one more event; it stops at `u64::MAX`.
pub open spec fn tally(c: u64) -> u64 {
    if c < u64::MAX {
        (c + 1) as u64
    } else {
        c
    }
}

/// The direction in which cell `(a, b)` lies from its neighbour `(i, j)`,
/// or `None` where the two are not neighbours.
pub open spec fn placed_dir(i: int, j: int, a: int, b: int) -> Option<Dir> {
    if a == i && b == j - 1 {
        Some(Dir::North)
    } else if a == i + 1 && b == j {
        Some(Dir::East)
    } else if a == i && b == j + 1 {
        Some(Dir::South)
    } else if a == i - 1 && b == j {
        Some(Dir::West)
    } else {
        None
    }
}

/// The accumulator of cell `(a, b)` after a tile with constraint `src` is
/// placed at `(i, j)`: narrowed where `(a, b)` is an unset neighbour.
pub open spec fn placed_cons(c: Constraint, unset: bool, src: Constraint, i: int, j: int, a: int, b: int) -> Constraint {
    match placed_dir(i, j, a, b) {
        Some(d) => if unset {
            propagate_spec(c, src, d)
        } else {
            c
        },
        None => c,
    }
}

/// Whether offset `(dx, dy)` from a rollback's centre lies strictly inside
/// the square of radius `r`.
pub open spec fn in_interior(dx: int, dy: int, r: int) -> bool {
    -(r - 1) <= dx <= r - 1 && -(r - 1) <= dy <= r - 1
}

/// The edge of the square of radius `r` that offset `(dx, dy)` lies on,
/// corners excluded, named by the direction the edge lies in.
pub open spec fn edge_of(dx: int, dy: int, r: int) -> Option<Dir> {
    if dx == -r && -(r - 1) <= dy <= r - 1 {
        Some(Dir::West)
    } else if dx == r && -(r - 1) <= dy <= r - 1 {
        Some(Dir::East)
    } else if dy == -r && -(r - 1) <= dx <= r - 1 {
        Some(Dir::North)
    } else if dy == r && -(r - 1) <= dx <= r - 1 {
        Some(Dir::South)
    } else {
        None
    }
}

/// Whether a rollback of radius `r` touches the cell at offset `(dx, dy)`.
pub open spec fn touched(dx: int, dy: int, r: int) -> bool {
    in_interior(dx, dy, r) || edge_of(dx, dy, r) is Some
}

/// The accumulator of the cell at offset `(dx, dy)` after a rollback of
/// radius `r`: fully wildcarded inside, the inward-facing range wildcarded
/// on an edge, unchanged elsewhere.
pub open spec fn rolled(c: Constraint, dx: int, dy: int, r: int) -> Constraint {
    if in_interior(dx, dy, r) {
        unconstrained_spec()
    } else {
        match edge_of(dx, dy, r) {
            Some(d) => propagate_spec(c, unconstrained_spec(), d),
            None => c,
        }
    }
}

/// Where offset `(dx, dy)` lies relative to the square of radius `r`.
fn classify(dx: i128, dy: i128, r: i128) -> (res: (bool, Option<Dir>))
    requires
        1 <= r <= 3,
    ensures
        res.0 == in_interior(dx as int, dy as int, r as int),
        res.1 == edge_of(dx as int, dy as int, r as int),
{
    let inner = -(r - 1) <= dx && dx <= r - 1 && -(r - 1) <= dy && dy <= r - 1;
    let edge = if dx == -r && -(r - 1) <= dy && dy <= r - 1 {
        Some(Dir::West)
    } else if dx == r && -(r - 1) <= dy && dy <= r - 1 {
        Some(Dir::East)
    } else if dy == -r && -(r - 1) <= dx && dx <= r - 1 {
        Some(Dir::North)
    } else if dy == r && -(r - 1) <= dx && dx <= r - 1 {
        Some(Dir::South)
    } else {
        None
    };
    (inner, edge)
}

/// Sum over the generation counters of how far each is below the last tier.
pub open spec fn budget(s: Seq<u32>) -> nat
    decreases s.len(),
{
    if s.len() == 0 {
        0
    } else {
        budget(s.drop_last()) + if s.last() < MED_ROLLBACK_LIMIT {
            (MED_ROLLBACK_LIMIT - s.last()) as nat
        } else {
            0nat
        }
    }
}

/// Counters that only grow never raise the budget, and one that grows below
/// the last tier lowers it.
proof fn lemma_budget_decreases(g1: Seq<u32>, g2: Seq<u32>, c: int)
    requires
        g1.len() == g2.len(),
        forall|k: int| 0 <= k < g1.len() ==> g1[k] <= #[trigger] g2[k],
    ensures
        budget(g2) <= budget(g1),
        0 <= c < g1.len() && g1[c] < g2[c] && g1[c] < MED_ROLLBACK_LIMIT ==> budget(g2) < budget(g1),
    decreases g1.len(),
{
    if g1.len() > 0 {
        let l = g1.len() - 1;
        assert(g1[l] <= g2[l]);
        assert forall|k: int| 0 <= k < g1.drop_last().len() implies g1.drop_last()[k] <= #[trigger] g2.drop_last()[k] by {
            assert(g1[k] <= g2[k]);
        }
        lemma_budget_decreases(g1.drop_last(), g2.drop_last(), c);
        if 0 <= c < l {
            assert(g1.drop_last()[c] == g1[c] && g2.drop_last()[c] == g2[c]);
        }
    }
}

/// A sequence of zero counters has the full budget.
proof fn lemma_budget_zero(s: Seq<u32>)
    requires
        forall|k: int| 0 <= k < s.len() ==> #[trigger] s[k] == 0,
    ensures
        budget(s) == MED_ROLLBACK_LIMIT * s.len(),
    decreases s.len(),
{
    if s.len() > 0 {
        assert forall|k: int| 0 <= k < s.drop_last().len() implies #[trigger] s.drop_last()[k] == 0 by {
            assert(s[k] == 0);
        }
        lemma_budget_zero(s.drop_last());
        assert(s.last() == s[s.len() - 1]);
    }
}

/// The state of one run: per-cell accumulators, generation counters and
/// placements, and the frontier of pending cells.
pub struct Generator {
    pub cons: Grid<Constraint>,
    pub gens: Grid<u32>,
    pub out: Grid<TileHandle>,
    pub frontier: Frontier,
}

/// What a run produces: the placement of every cell, row by row, and how
/// often it had to roll back or give up.
pub struct Tiling {
    pub handles: Vec<TileHandle>,
    pub small_rollbacks: u64,
    pub med_rollbacks: u64,
    pub big_rollbacks: u64,
    pub place_failures: u64,
}

impl Generator {
    /// Grid width.
    pub open spec fn w(&self) -> int {
        self.cons.w as int
    }

    /// Grid height.
    pub open spec fn h(&self) -> int {
        self.cons.h as int
    }

    /// Whether `(i, j)` is a cell of the grid.
    pub open spec fn in_bounds(&self, i: int, j: int) -> bool {
        0 <= i < self.w() && 0 <= j < self.h()
    }

    /// Every grid and the frontier are well formed and of one size.
    pub open spec fn shaped(&self) -> bool {
        &&& self.cons.wf()
        &&& self.gens.wf()
        &&& self.out.wf()
        &&& self.frontier.wf()
        &&& self.gens.w == self.cons.w && self.out.w == self.cons.w && self.frontier.w
            == self.cons.w
        &&& self.gens.h == self.cons.h && self.out.h == self.cons.h && self.frontier.h
            == self.cons.h
    }

    /// The grids agree on their size, placed handles name catalog variants,
    /// and every cell but `(ci, cj)` is pending exactly when it is unset.
    pub open spec fn inv_except(&self, tiles: Seq<TileSpec>, ci: int, cj: int) -> bool {
        &&& self.shaped()
        &&& forall|a: int, b: int|
            #![trigger self.out.at(a, b)]
            self.in_bounds(a, b) ==> (self.out.at(a, b) matches TileHandle::Tile(k) ==> k
                < tiles.len())
        &&& forall|a: int, b: int|
            #![trigger self.frontier.at(a, b)]
            self.in_bounds(a, b) && !(a == ci && b == cj) ==> (self.out.at(a, b) is Unset
                <==> self.frontier.at(a, b) is Some)
    }

    /// The invariant of a run between steps.
    pub open spec fn inv(&self, tiles: Seq<TileSpec>) -> bool {
        self.inv_except(tiles, -1, -1)
    }
    /// `self` is `prev` after a rollback of radius `r` around `(i, j)`: each
    /// touched cell has its rolled accumulator, one more generation, no tile
    /// and a frontier entry with its new candidate count; every other cell
    /// is as in `prev`.
    pub open spec fn rolled_back_from(&self, prev: Generator, tiles: Seq<TileSpec>, i: int, j: int, r: int) -> bool {
        &&& forall|a: int, b: int|
            #![trigger self.cons.at(a, b)]
            self.in_bounds(a, b) ==> self.cons.at(a, b) == rolled(prev.cons.at(a, b), a - i, b - j, r)
        &&& forall|a: int, b: int|
            #![trigger self.gens.at(a, b)]
            self.in_bounds(a, b) ==> self.gens.at(a, b) == if touched(a - i, b - j, r) {
                bump(prev.gens.at(a, b))
            } else {
                prev.gens.at(a, b)
            }
        &&& forall|a: int, b: int|
            #![trigger self.out.at(a, b)]
            self.in_bounds(a, b) ==> self.out.at(a, b) == if touched(a - i, b - j, r) {
                TileHandle::Unset
            } else {
                prev.out.at(a, b)
            }
        &&& forall|a: int, b: int|
            #![trigger self.frontier.at(a, b)]
            self.in_bounds(a, b) ==> self.frontier.at(a, b) == if touched(a - i, b - j, r) {
                Some(count_matching(tiles, self.cons.at(a, b)) as usize)
            } else {
                prev.frontier.at(a, b)
            }
    }

    /// `self` is `prev` after placing variant `t` at `(i, j)`: that cell
    /// holds the tile; each unset neighbour has the mirror of the tile's
    /// constraint written into its facing range and a frontier entry with
    /// its new candidate count; every other cell is as in `prev`.
    pub open spec fn placed_from(&self, prev: Generator, tiles: Seq<TileSpec>, i: int, j: int, t: int) -> bool {
        &&& self.gens == prev.gens
        &&& forall|a: int, b: int|
            #![trigger self.out.at(a, b)]
            self.in_bounds(a, b) ==> self.out.at(a, b) == if a == i && b == j {
                TileHandle::Tile(t as u32)
            } else {
                prev.out.at(a, b)
            }
        &&& forall|a: int, b: int|
            #![trigger self.cons.at(a, b)]
            self.in_bounds(a, b) ==> self.cons.at(a, b) == placed_cons(
                prev.cons.at(a, b),
                prev.out.at(a, b) is Unset,
                tiles[t].constraint,
                i,
                j,
                a,
                b,
            )
        &&& forall|a: int, b: int|
            #![trigger self.frontier.at(a, b)]
            self.in_bounds(a, b) ==> self.frontier.at(a, b) == if placed_dir(i, j, a, b) is Some
                && prev.out.at(a, b) is Unset {
                Some(count_matching(tiles, self.cons.at(a, b)) as usize)
            } else {
                prev.frontier.at(a, b)
            }
    }

    /// Rolls back the neighbourhood of radius `r` around `(i, j)`. Every cell
    /// strictly inside the square of radius `r` becomes fully wildcarded;
    /// every cell on its edges, corners excluded, has its inward-facing range
    /// wildcarded. Each of these cells becomes unset, its generation grows by
    /// one and it is pending again with its new candidate count. No other
    /// cell changes.
    pub fn roll_back(&mut self, tileset: &TileSet, i: usize, j: usize, r: usize)
        requires
            old(self).inv_except(tileset.vec@, i as int, j as int),
            old(self).in_bounds(i as int, j as int),
            1 <= r <= 3,
        ensures
            final(self).inv(tileset.vec@),
            final(self).cons.w == old(self).cons.w,
            final(self).cons.h == old(self).cons.h,
            final(self).rolled_back_from(*old(self), tileset.vec@, i as int, j as int, r as int),
    {
        let w = self.cons.w;
        let h = self.cons.h;
        let lo_i: usize = if i >= r { i - r } else { 0 };
        let hi_i: usize = if r < w - i { i + r } else { w - 1 };
        let lo_j: usize = if j >= r { j - r } else { 0 };
        let hi_j: usize = if r < h - j { j + r } else { h - 1 };
        let ri: i128 = r as i128;
        let mut b: usize = lo_j;
        while b <= hi_j
            invariant
                self.shaped(),
                self.cons.w == w,
                self.cons.h == h,
                old(self).cons.w == w,
                old(self).cons.h == h,
                i < w,
                j < h,
                1 <= r <= 3,
                ri == r,
                lo_i == (if i >= r { i - r } else { 0 }),
                hi_i == (if i + r < w { i + r } else { w - 1 }),
                lo_j == (if j >= r { j - r } else { 0 }),
                hi_j == (if j + r < h { j + r } else { h - 1 }),
                lo_j <= b <= hi_j + 1,
                forall|x: int, y: int|
                    #![trigger self.cons.at(x, y)]
                    0 <= x < w && 0 <= y < h ==> self.cons.at(x, y) == if y < b {
                        rolled(old(self).cons.at(x, y), x - i, y - j, r as int)
                    } else {
                        old(self).cons.at(x, y)
                    },
                forall|x: int, y: int|
                    #![trigger self.gens.at(x, y)]
                    0 <= x < w && 0 <= y < h ==> self.gens.at(x, y) == if y < b && touched(
                        x - i,
                        y - j,
                        r as int,
                    ) {
                        bump(old(self).gens.at(x, y))
                    } else {
                        old(self).gens.at(x, y)
                    },
                forall|x: int, y: int|
                    #![trigger self.out.at(x, y)]
                    0 <= x < w && 0 <= y < h ==> self.out.at(x, y) == if y < b && touched(
                        x - i,
                        y - j,
                        r as int,
                    ) {
                        TileHandle::Unset
                    } else {
                        old(self).out.at(x, y)
                    },
                forall|x: int, y: int|
                    #![trigger self.frontier.at(x, y)]
                    0 <= x < w && 0 <= y < h ==> self.frontier.at(x, y) == if y < b && touched(
                        x - i,
                        y - j,
                        r as int,
                    ) {
                        Some(count_matching(tileset.vec@, self.cons.at(x, y)) as usize)
                    } else {
                        old(self).frontier.at(x, y)
                    },
            decreases hi_j + 1 - b,
        {
            let mut a: usize = lo_i;
            while a <= hi_i
                invariant
                    self.shaped(),
                    self.cons.w == w,
                    self.cons.h == h,
                    old(self).cons.w == w,
                    old(self).cons.h == h,
                    i < w,
                    j < h,
                    1 <= r <= 3,
                    ri == r,
                    lo_i == (if i >= r { i - r } else { 0 }),
                    hi_i == (if i + r < w { i + r } else { w - 1 }),
                    lo_j == (if j >= r { j - r } else { 0 }),
                    hi_j == (if j + r < h { j + r } else { h - 1 }),
                    lo_j <= b <= hi_j,
                    lo_i <= a <= hi_i + 1,
                    forall|x: int, y: int|
                        #![trigger self.cons.at(x, y)]
                        0 <= x < w && 0 <= y < h ==> self.cons.at(x, y) == if y < b || (y == b
                            && x < a) {
                            rolled(old(self).cons.at(x, y), x - i, y - j, r as int)
                        } else {
                            old(self).cons.at(x, y)
                        },
                    forall|x: int, y: int|
                        #![trigger self.gens.at(x, y)]
                        0 <= x < w && 0 <= y < h ==> self.gens.at(x, y) == if (y < b || (y == b
                            && x < a)) && touched(x - i, y - j, r as int) {
                            bump(old(self).gens.at(x, y))
                        } else {
                            old(self).gens.at(x, y)
                        },
                    forall|x: int, y: int|
                        #![trigger self.out.at(x, y)]
                        0 <= x < w && 0 <= y < h ==> self.out.at(x, y) == if (y < b || (y == b
                            && x < a)) && touched(x - i, y - j, r as int) {
                            TileHandle::Unset
                        } else {
                            old(self).out.at(x, y)
                        },
                    forall|x: int, y: int|
                        #![trigger self.frontier.at(x, y)]
                        0 <= x < w && 0 <= y < h ==> self.frontier.at(x, y) == if (y < b || (y
                            == b && x < a)) && touched(x - i, y - j, r as int) {
                            Some(count_matching(tileset.vec@, self.cons.at(x, y)) as usize)
                        } else {
                            old(self).frontier.at(x, y)
                        },
                decreases hi_i + 1 - a,
            {
                let dx: i128 = a as i128 - i as i128;
                let dy: i128 = b as i128 - j as i128;
                let (inner, edge) = classify(dx, dy, ri);
                if inner || edge.is_some() {
                    let c = self.cons.get(a, b);
                    let nc = if inner {
                        unconstrained()
                    } else {
                        match edge {
                            Some(d) => {
                                let mut t = c;
                                constraint_add(&mut t, unconstrained(), d);
                                t
                            },
                            None => c,
                        }
                    };
                    self.cons.set(a, b, nc);
                    let g = self.gens.get(a, b);
                    self.gens.set(a, b, g.saturating_add(1));
                    self.out.set(a, b, TileHandle::Unset);
                    let cnt = tileset.n_tiles_satisfying_constraints(nc);
                    self.frontier.upsert(cnt, (a, b));
                }
                a = a + 1;
            }
            b = b + 1;
        }
    }
    /// Narrows the neighbour of `(i, j)` in direction `dir` with the mirror
    /// of `source`, and refreshes its candidate count, where that neighbour
    /// exists and is still unset; otherwise nothing changes.
    pub fn propagate_to(&mut self, tileset: &TileSet, i: usize, j: usize, dir: Dir, source: Constraint)
        requires
            old(self).inv(tileset.vec@),
            old(self).in_bounds(i as int, j as int),
        ensures
            final(self).inv(tileset.vec@),
            final(self).cons.w == old(self).cons.w,
            final(self).cons.h == old(self).cons.h,
            final(self).gens == old(self).gens,
            final(self).out == old(self).out,
            final(self).frontier.count() == old(self).frontier.count(),
            forall|a: int, b: int|
                #![trigger final(self).cons.at(a, b)]
                final(self).in_bounds(a, b) ==> final(self).cons.at(a, b) == if a == i + dir_di(
                    dir,
                ) && b == j + dir_dj(dir) && old(self).out.at(a, b) is Unset {
                    propagate_spec(old(self).cons.at(a, b), source, dir)
                } else {
                    old(self).cons.at(a, b)
                },
            forall|a: int, b: int|
                #![trigger final(self).frontier.at(a, b)]
                final(self).in_bounds(a, b) ==> final(self).frontier.at(a, b) == if a == i
                    + dir_di(dir) && b == j + dir_dj(dir) && old(self).out.at(a, b) is Unset {
                    Some(count_matching(tileset.vec@, final(self).cons.at(a, b)) as usize)
                } else {
                    old(self).frontier.at(a, b)
                },
    {
        let w = self.cons.w;
        let h = self.cons.h;
        let inside = match dir {
            Dir::North => j > 0,
            Dir::South => j + 1 < h,
            Dir::West => i > 0,
            Dir::East => i + 1 < w,
        };
        if inside {
            let (ni, nj) = idx_in_dir(i, j, dir);
            match self.out.get(ni, nj) {
                TileHandle::Unset => {
                    let mut c = self.cons.get(ni, nj);
                    constraint_add(&mut c, source, dir);
                    self.cons.set(ni, nj, c);
                    let cnt = tileset.n_tiles_satisfying_constraints(c);
                    self.frontier.upsert(cnt, (ni, nj));
                },
                _ => {},
            }
        }
    }
    /// Places variant `t` at the unset cell `(i, j)` and narrows each of its
    /// unset neighbours with the mirror of the variant's constraint.
    pub fn place(&mut self, tileset: &TileSet, i: usize, j: usize, t: u32)
        requires
            old(self).inv_except(tileset.vec@, i as int, j as int),
            old(self).in_bounds(i as int, j as int),
            old(self).frontier.at(i as int, j as int) is None,
            t < tileset.vec@.len(),
        ensures
            final(self).inv(tileset.vec@),
            final(self).cons.w == old(self).cons.w,
            final(self).cons.h == old(self).cons.h,
            final(self).placed_from(*old(self), tileset.vec@, i as int, j as int, t as int),
            final(self).frontier.count() == old(self).frontier.count(),
    {
        self.out.set(i, j, TileHandle::Tile(t));
        let src = tileset.get_tilespec(TileHandle::Tile(t)).constraint;
        self.propagate_to(tileset, i, j, Dir::North, src);
        self.propagate_to(tileset, i, j, Dir::East, src);
        self.propagate_to(tileset, i, j, Dir::South, src);
        self.propagate_to(tileset, i, j, Dir::West, src);
    }
    /// After no variant matched at `(i, j)` in generation `g`: a radius-1
    /// rollback (tier 0) while `g` is below the small limit, a radius-2 one
    /// (tier 1) while below the medium limit, else a permanent failure at
    /// that cell (tier 2).
    fn recover(&mut self, tileset: &TileSet, i: usize, j: usize, g: u32) -> (tier: u8)
        requires
            old(self).inv_except(tileset.vec@, i as int, j as int),
            old(self).in_bounds(i as int, j as int),
            old(self).frontier.at(i as int, j as int) is None,
            old(self).out.at(i as int, j as int) is Unset,
            old(self).gens.at(i as int, j as int) == g,
        ensures
            final(self).inv(tileset.vec@),
            final(self).cons.w == old(self).cons.w,
            final(self).cons.h == old(self).cons.h,
            tier == 0 <==> g < SMALL_ROLLBACK_LIMIT,
            tier == 1 <==> SMALL_ROLLBACK_LIMIT <= g < MED_ROLLBACK_LIMIT,
            tier == 2 <==> MED_ROLLBACK_LIMIT <= g,
            tier < 2 ==> budget(final(self).gens.elements@) < budget(old(self).gens.elements@),
            tier == 0 ==> final(self).rolled_back_from(*old(self), tileset.vec@, i as int, j as int, 1),
            tier == 1 ==> final(self).rolled_back_from(*old(self), tileset.vec@, i as int, j as int, 2),
            tier == 2 ==> final(self).gens == old(self).gens,
            tier == 2 ==> final(self).frontier == old(self).frontier,
            tier == 2 ==> final(self).out.at(i as int, j as int) is Failed,
            tier == 2 ==> final(self).out.elements@ == old(self).out.elements@.update(
                cell_index(old(self).w(), i as int, j as int),
                TileHandle::Failed,
            ),
            tier == 2 ==> final(self).cons == old(self).cons,
            tier == 2 ==> forall|a: int, b: int|
                #![trigger final(self).out.at(a, b)]
                final(self).in_bounds(a, b) && !(a == i && b == j) ==> final(self).out.at(a, b)
                    == old(self).out.at(a, b),
            tier < 2 ==> forall|a: int, b: int|
                #![trigger final(self).out.at(a, b)]
                final(self).in_bounds(a, b) && touched(a - i, b - j, 1) ==> final(self).out.at(
                    a,
                    b,
                ) is Unset,
    {
        if g < MED_ROLLBACK_LIMIT {
            let tier: u8 = if g < SMALL_ROLLBACK_LIMIT {
                self.roll_back(tileset, i, j, 1);
                0
            } else {
                self.roll_back(tileset, i, j, 2);
                1
            };
            proof {
                let w = self.cons.w as int;
                let h = self.cons.h as int;
                assert(touched(0, 0, 1) && touched(0, 0, 2));
                assert(self.gens.at(i as int, j as int) == g + 1);
                lemma_flat_le(old(self).gens, self.gens);
                lemma_cell_index(w, h, i as int, j as int, i as int, j as int);
                lemma_budget_decreases(
                    old(self).gens.elements@,
                    self.gens.elements@,
                    cell_index(w, i as int, j as int),
                );
            }
            tier
        } else {
            self.out.set(i, j, TileHandle::Failed);
            2
        }
    }
}

} // verus!

verus! {

/// A cell-by-cell bound between two grids of counters, restated over their storage.
proof fn lemma_flat_le(g1: Grid<u32>, g2: Grid<u32>)
    requires
        g1.wf(),
        g2.wf(),
        g1.w == g2.w,
        g1.h == g2.h,
        forall|a: int, b: int|
            #![trigger g2.at(a, b)]
            0 <= a < g1.w && 0 <= b < g1.h ==> g1.at(a, b) <= g2.at(a, b),
    ensures
        forall|k: int| 0 <= k < g1.elements@.len() ==> g1.elements@[k] <= #[trigger] g2.elements@[k],
{
    assert forall|k: int| 0 <= k < g1.elements@.len() implies g1.elements@[k] <= #[trigger] g2.elements@[k] by {
        lemma_index_cell(g1.w as int, g1.h as int, k);
        assert(g1.at(k % (g1.w as int), k / (g1.w as int)) <= g2.at(k % (g1.w as int), k / (g1.w as int)));
    }
}

/// No variant fits beside any variant across a vertical border, in either
/// order, whatever else the neighbour's accumulator holds.
pub open spec fn never_adjacent(tiles: Seq<TileSpec>) -> bool {
    forall|k1: int, k2: int|
        #![trigger tiles[k1], tiles[k2]]
        0 <= k1 < tiles.len() && 0 <= k2 < tiles.len() ==> {
            &&& !match_spec(
                tiles[k2].constraint,
                propagate_spec(unconstrained_spec(), tiles[k1].constraint, Dir::East),
            )
            &&& !match_spec(
                tiles[k2].constraint,
                propagate_spec(unconstrained_spec(), tiles[k1].constraint, Dir::West),
            )
        }
}

/// No variant fits beside any variant across a horizontal border, in either
/// order, whatever else the neighbour's accumulator holds.
pub open spec fn never_stacked(tiles: Seq<TileSpec>) -> bool {
    forall|k1: int, k2: int|
        #![trigger tiles[k1], tiles[k2]]
        0 <= k1 < tiles.len() && 0 <= k2 < tiles.len() ==> {
            &&& !match_spec(
                tiles[k2].constraint,
                propagate_spec(unconstrained_spec(), tiles[k1].constraint, Dir::North),
            )
            &&& !match_spec(
                tiles[k2].constraint,
                propagate_spec(unconstrained_spec(), tiles[k1].constraint, Dir::South),
            )
        }
}

/// With such a catalog, a cell narrowed from a placed neighbour across the
/// forbidden border has no candidate left.
proof fn lemma_blocked(tiles: Seq<TileSpec>, acc: Constraint, k1: int, d: Dir)
    requires
        0 <= k1 < tiles.len(),
        (never_adjacent(tiles) && (d == Dir::East || d == Dir::West)) || (never_stacked(tiles) && (d
            == Dir::North || d == Dir::South)),
    ensures
        count_matching(tiles, propagate_spec(acc, tiles[k1].constraint, d)) == 0,
{
    let p = propagate_spec(acc, tiles[k1].constraint, d);
    assert forall|m: int| 0 <= m < tiles.len() implies !match_spec(#[trigger] tiles[m].constraint, p) by {
        if match_spec(tiles[m].constraint, p) {
            lemma_match_propagated_range(tiles[m].constraint, acc, tiles[k1].constraint, d);
            assert(tiles[k1] == tiles[k1] && tiles[m] == tiles[m]);
        }
    }
    lemma_count_zero(tiles, p);
}

/// The state of a run, cell by cell in row-major order, with its counters.
pub struct RunState {
    pub cons: Seq<Constraint>,
    pub gens: Seq<u32>,
    pub out: Seq<TileHandle>,
    pub prio: Seq<Option<usize>>,
    pub small: u64,
    pub med: u64,
    pub fails: u64,
}

/// Entry `k` is pending with the least priority, the first among equals.
pub open spec fn pending_min(prio: Seq<Option<usize>>, k: int) -> bool {
    &&& 0 <= k < prio.len()
    &&& prio[k] is Some
    &&& forall|q: int|
        #![trigger prio[q]]
        0 <= q < prio.len() && prio[q] is Some ==> prio[k].unwrap() < prio[q].unwrap() || (
        prio[k].unwrap() == prio[q].unwrap() && k <= q)
}

/// The cell the frontier hands out next, if any.
pub open spec fn next_cell(prio: Seq<Option<usize>>) -> Option<int> {
    if exists|k: int| pending_min(prio, k) {
        Some(choose|k: int| pending_min(prio, k))
    } else {
        None
    }
}

/// The state after placing variant `t` at cell `k`.
pub open spec fn model_place(tiles: Seq<TileSpec>, w: int, s: RunState, k: int, t: int) -> RunState {
    let i = k % w;
    let j = k / w;
    let src = tiles[t].constraint;
    let cons = Seq::new(
        s.cons.len(),
        |q: int| placed_cons(s.cons[q], s.out[q] is Unset, src, i, j, q % w, q / w),
    );
    RunState {
        cons,
        gens: s.gens,
        out: s.out.update(k, TileHandle::Tile(t as u32)),
        prio: Seq::new(
            s.prio.len(),
            |q: int|
                if placed_dir(i, j, q % w, q / w) is Some && s.out[q] is Unset {
                    Some(count_matching(tiles, cons[q]) as usize)
                } else {
                    s.prio[q]
                },
        ),
        small: s.small,
        med: s.med,
        fails: s.fails,
    }
}

/// The state after a rollback of radius `r` around cell `k`.
pub open spec fn model_rollback(tiles: Seq<TileSpec>, w: int, s: RunState, k: int, r: int) -> RunState {
    let i = k % w;
    let j = k / w;
    let cons = Seq::new(s.cons.len(), |q: int| rolled(s.cons[q], q % w - i, q / w - j, r));
    RunState {
        cons,
        gens: Seq::new(
            s.gens.len(),
            |q: int|
                if touched(q % w - i, q / w - j, r) {
                    bump(s.gens[q])
                } else {
                    s.gens[q]
                },
        ),
        out: Seq::new(
            s.out.len(),
            |q: int|
                if touched(q % w - i, q / w - j, r) {
                    TileHandle::Unset
                } else {
                    s.out[q]
                },
        ),
        prio: Seq::new(
            s.prio.len(),
            |q: int|
                if touched(q % w - i, q / w - j, r) {
                    Some(count_matching(tiles, cons[q]) as usize)
                } else {
                    s.prio[q]
                },
        ),
        small: s.small,
        med: s.med,
        fails: s.fails,
    }
}

/// The state after the cell `k`, just taken from the frontier, found no
/// matching variant in generation `g`.
pub open spec fn model_recover(tiles: Seq<TileSpec>, w: int, s: RunState, k: int, g: u32) -> RunState {
    if g < SMALL_ROLLBACK_LIMIT {
        let m = model_rollback(tiles, w, s, k, 1);
        RunState { small: tally(s.small), ..m }
    } else if g < MED_ROLLBACK_LIMIT {
        let m = model_rollback(tiles, w, s, k, 2);
        RunState { med: tally(s.med), ..m }
    } else {
        RunState { out: s.out.update(k, TileHandle::Failed), fails: tally(s.fails), ..s }
    }
}

/// One step of a run: take the next cell, draw among the variants matching
/// its accumulator with its own seed, then place the drawn variant, or roll
/// back or give up where none matches. A run with nothing pending stays put.
#[verifier::opaque]
pub open spec fn step(tiles: Seq<TileSpec>, w: int, seed: u32, s: RunState) -> RunState {
    match next_cell(s.prio) {
        None => s,
        Some(k) => {
            let s1 = RunState { prio: s.prio.update(k, None), ..s };
            let g = s.gens[k];
            match choose_spec(tiles, s.cons[k], cell_seed_spec(seed, (k % w) as u32, (k / w) as u32, g)) {
                Some(t) => model_place(tiles, w, s1, k, t),
                None => model_recover(tiles, w, s1, k, g),
            }
        },
    }
}

/// The state after `m` steps from `s`.
pub open spec fn steps(tiles: Seq<TileSpec>, w: int, seed: u32, s: RunState, m: nat) -> RunState
    decreases m,
{
    if m == 0 {
        s
    } else {
        step(tiles, w, seed, steps(tiles, w, seed, s, (m - 1) as nat))
    }
}

/// The start of a run on `n` cells: all wildcard, generation zero, unset,
/// and pending with the candidate count of the wildcard.
pub open spec fn initial(tiles: Seq<TileSpec>, n: int) -> RunState {
    RunState {
        cons: Seq::new(n as nat, |q: int| unconstrained_spec()),
        gens: Seq::new(n as nat, |q: int| 0u32),
        out: Seq::new(n as nat, |q: int| TileHandle::Unset),
        prio: Seq::new(
            n as nat,
            |q: int| Some(count_matching(tiles, unconstrained_spec()) as usize),
        ),
        small: 0,
        med: 0,
        fails: 0,
    }
}

/// Whether nothing is pending.
pub open spec fn finished(s: RunState) -> bool {
    next_cell(s.prio) is None
}

/// The finished state of the run on a `w` by `h` grid with `seed`.
pub open spec fn run(tiles: Seq<TileSpec>, w: int, h: int, seed: u32) -> RunState {
    let s0 = initial(tiles, w * h);
    steps(tiles, w, seed, s0, choose|m: nat| finished(steps(tiles, w, seed, s0, m)))
}

/// Once finished, further steps change nothing.
proof fn lemma_finished_stays(tiles: Seq<TileSpec>, w: int, seed: u32, s: RunState, a: nat, b: nat)
    requires
        finished(steps(tiles, w, seed, s, a)),
        a <= b,
    ensures
        steps(tiles, w, seed, s, b) == steps(tiles, w, seed, s, a),
    decreases b - a,
{
    reveal(step);
    if a < b {
        lemma_finished_stays(tiles, w, seed, s, a, (b - 1) as nat);
    }
}

/// A run that finishes after `m` steps has that state as its result.
proof fn lemma_run_is(tiles: Seq<TileSpec>, w: int, h: int, seed: u32, m: nat)
    requires
        finished(steps(tiles, w, seed, initial(tiles, w * h), m)),
    ensures
        run(tiles, w, h, seed) == steps(tiles, w, seed, initial(tiles, w * h), m),
{
    let s0 = initial(tiles, w * h);
    let c = choose|m: nat| finished(steps(tiles, w, seed, s0, m));
    if c <= m {
        lemma_finished_stays(tiles, w, seed, s0, c, m);
    } else {
        lemma_finished_stays(tiles, w, seed, s0, m, c);
    }
}

/// Two runs on the same catalog, size and seed end in the same state.
pub proof fn lemma_run_deterministic(tiles: Seq<TileSpec>, w: int, h: int, seed: u32, m1: nat, m2: nat)
    requires
        finished(steps(tiles, w, seed, initial(tiles, w * h), m1)),
        finished(steps(tiles, w, seed, initial(tiles, w * h), m2)),
    ensures
        steps(tiles, w, seed, initial(tiles, w * h), m1) == steps(tiles, w, seed, initial(tiles, w * h), m2),
{
    lemma_run_is(tiles, w, h, seed, m1);
    lemma_run_is(tiles, w, h, seed, m2);
}

/// The run state that a generator and its counters stand for.
pub open spec fn state_of(g: Generator, small: u64, med: u64, fails: u64) -> RunState {
    RunState {
        cons: g.cons.elements@,
        gens: g.gens.elements@,
        out: g.out.elements@,
        prio: g.frontier.prio@,
        small,
        med,
        fails,
    }
}

/// Row-major order of cells is the order of their positions.
proof fn lemma_row_major_index(w: int, h: int, i: int, j: int, a: int, b: int)
    requires
        0 <= i < w,
        0 <= j < h,
        0 <= a < w,
        0 <= b < h,
    ensures
        crate::frontier::row_major_le(i, j, a, b) <==> cell_index(w, i, j) <= cell_index(w, a, b),
{
    if j < b {
        assert(j * w + i < b * w + a) by (nonlinear_arith)
            requires 0 <= i < w, 0 <= a, j < b;
    } else if b < j {
        assert(b * w + a < j * w + i) by (nonlinear_arith)
            requires 0 <= a < w, 0 <= i, b < j;
    }
}

/// The cell that `extract_min` hands out is the model's next cell.
proof fn lemma_next_cell(f: Frontier, i: int, j: int)
    requires
        f.wf(),
        f.in_bounds(i, j),
        f.at(i, j) is Some,
        forall|a: int, b: int|
            #![trigger f.at(a, b)]
            f.in_bounds(a, b) && f.at(a, b) is Some ==> {
                let p = f.at(i, j).unwrap();
                let q = f.at(a, b).unwrap();
                p < q || (p == q && crate::frontier::row_major_le(i, j, a, b))
            },
    ensures
        next_cell(f.prio@) == Some(cell_index(f.w as int, i, j)),
{
    let w = f.w as int;
    let h = f.h as int;
    let k = cell_index(w, i, j);
    let prio = f.prio@;
    lemma_cell_index(w, h, i, j, i, j);
    assert forall|q: int|
        #![trigger prio[q]]
        0 <= q < prio.len() && prio[q] is Some implies prio[k].unwrap() < prio[q].unwrap() || (
        prio[k].unwrap() == prio[q].unwrap() && k <= q) by {
        lemma_index_cell(w, h, q);
        lemma_row_major_index(w, h, i, j, q % w, q / w);
        assert(f.at(q % w, q / w) == prio[q]);
    }
    assert(pending_min(prio, k));
    let c = choose|c: int| pending_min(prio, c);
    assert(prio[c] is Some && prio[k] is Some);
    assert(c == k);
}

/// Where nothing is pending, the model has no next cell.
proof fn lemma_next_cell_none(prio: Seq<Option<usize>>)
    requires
        forall|k: int| 0 <= k < prio.len() ==> #[trigger] prio[k] is None,
    ensures
        next_cell(prio) is None,
{
}

/// A placement in the generator is the model's placement.
proof fn lemma_place_model(prev: Generator, cur: Generator, tiles: Seq<TileSpec>, i: int, j: int, t: int, s: RunState)
    requires
        prev.shaped(),
        cur.shaped(),
        cur.cons.w == prev.cons.w,
        cur.cons.h == prev.cons.h,
        prev.in_bounds(i, j),
        cur.placed_from(prev, tiles, i, j, t),
        s.cons == prev.cons.elements@,
        s.gens == prev.gens.elements@,
        s.out == prev.out.elements@,
        s.prio == prev.frontier.prio@,
    ensures
        ({
            let m = model_place(tiles, prev.w(), s, cell_index(prev.w(), i, j), t);
            &&& cur.cons.elements@ == m.cons
            &&& cur.gens.elements@ == m.gens
            &&& cur.out.elements@ == m.out
            &&& cur.frontier.prio@ == m.prio
            &&& m.small == s.small && m.med == s.med && m.fails == s.fails
        }),
{
    let w = prev.w();
    let h = prev.h();
    let k = cell_index(w, i, j);
    lemma_cell_index(w, h, i, j, i, j);
    lemma_index_cell(w, h, k);
    lemma_cell_index(w, h, i, j, k % w, k / w);
    let m = model_place(tiles, w, s, k, t);
    assert forall|q: int| 0 <= q < w * h implies {
        &&& cur.cons.elements@[q] == m.cons[q]
        &&& cur.out.elements@[q] == m.out[q]
        &&& cur.frontier.prio@[q] == m.prio[q]
    } by {
        lemma_index_cell(w, h, q);
        let a = q % w;
        let b = q / w;
        lemma_cell_index(w, h, a, b, i, j);
        assert(cur.cons.at(a, b) == cur.cons.elements@[q]);
        assert(cur.out.at(a, b) == cur.out.elements@[q]);
        assert(cur.frontier.at(a, b) == cur.frontier.prio@[q]);
        assert(prev.out.at(a, b) == s.out[q]);
    }
    assert(cur.cons.elements@ =~= m.cons);
    assert(cur.out.elements@ =~= m.out);
    assert(cur.frontier.prio@ =~= m.prio);
}

/// A rollback in the generator is the model's rollback.
proof fn lemma_rollback_model(prev: Generator, cur: Generator, tiles: Seq<TileSpec>, i: int, j: int, r: int, s: RunState)
    requires
        prev.shaped(),
        cur.shaped(),
        cur.cons.w == prev.cons.w,
        cur.cons.h == prev.cons.h,
        prev.in_bounds(i, j),
        cur.rolled_back_from(prev, tiles, i, j, r),
        s.cons == prev.cons.elements@,
        s.gens == prev.gens.elements@,
        s.out == prev.out.elements@,
        s.prio == prev.frontier.prio@,
    ensures
        ({
            let m = model_rollback(tiles, prev.w(), s, cell_index(prev.w(), i, j), r);
            &&& cur.cons.elements@ == m.cons
            &&& cur.gens.elements@ == m.gens
            &&& cur.out.elements@ == m.out
            &&& cur.frontier.prio@ == m.prio
            &&& m.small == s.small && m.med == s.med && m.fails == s.fails
        }),
{
    let w = prev.w();
    let h = prev.h();
    let k = cell_index(w, i, j);
    lemma_cell_index(w, h, i, j, i, j);
    lemma_index_cell(w, h, k);
    lemma_cell_index(w, h, i, j, k % w, k / w);
    let m = model_rollback(tiles, w, s, k, r);
    assert forall|q: int| 0 <= q < w * h implies {
        &&& cur.cons.elements@[q] == m.cons[q]
        &&& cur.gens.elements@[q] == m.gens[q]
        &&& cur.out.elements@[q] == m.out[q]
        &&& cur.frontier.prio@[q] == m.prio[q]
    } by {
        lemma_index_cell(w, h, q);
        let a = q % w;
        let b = q / w;
        assert(cur.cons.at(a, b) == cur.cons.elements@[q]);
        assert(cur.gens.at(a, b) == cur.gens.elements@[q]);
        assert(cur.out.at(a, b) == cur.out.elements@[q]);
        assert(cur.frontier.at(a, b) == cur.frontier.prio@[q]);
    }
    assert(cur.cons.elements@ =~= m.cons);
    assert(cur.gens.elements@ =~= m.gens);
    assert(cur.out.elements@ =~= m.out);
    assert(cur.frontier.prio@ =~= m.prio);
}

/// Nothing matches the wildcard only in an empty catalog.
proof fn lemma_wildcard_count(tiles: Seq<TileSpec>)
    ensures
        count_matching(tiles, unconstrained_spec()) == 0 ==> tiles.len() == 0,
{
    lemma_count_zero(tiles, unconstrained_spec());
    if tiles.len() > 0 {
        crate::constraint::lemma_match_symmetric_and_wildcard(unconstrained_spec(), tiles[0].constraint);
    }
}

/// A step that places variant `t` at the cell the frontier handed out is
/// the model's step.
proof fn lemma_step_place(
    mid: Generator,
    cur: Generator,
    tiles: Seq<TileSpec>,
    seed: u32,
    st: RunState,
    i: int,
    j: int,
    t: int,
)
    requires
        mid.shaped(),
        cur.shaped(),
        cur.cons.w == mid.cons.w,
        cur.cons.h == mid.cons.h,
        mid.in_bounds(i, j),
        next_cell(st.prio) == Some(cell_index(mid.w(), i, j)),
        mid.cons.elements@ == st.cons,
        mid.gens.elements@ == st.gens,
        mid.out.elements@ == st.out,
        mid.frontier.prio@ == st.prio.update(cell_index(mid.w(), i, j), None),
        choose_spec(
            tiles,
            st.cons[cell_index(mid.w(), i, j)],
            cell_seed_spec(seed, i as u32, j as u32, st.gens[cell_index(mid.w(), i, j)]),
        ) == Some(t),
        cur.placed_from(mid, tiles, i, j, t),
    ensures
        state_of(cur, st.small, st.med, st.fails) == step(tiles, mid.w(), seed, st),
{
    reveal(step);
    let w = mid.w();
    let h = mid.h();
    let k = cell_index(w, i, j);
    lemma_cell_index(w, h, i, j, i, j);
    lemma_index_cell(w, h, k);
    lemma_cell_index(w, h, i, j, k % w, k / w);
    let s1 = RunState { prio: st.prio.update(k, None), ..st };
    lemma_place_model(mid, cur, tiles, i, j, t, s1);
}

/// A step that finds no match at the cell the frontier handed out, and
/// rolls back or gives up as `recover` did, is the model's step.
proof fn lemma_step_recover(
    mid: Generator,
    cur: Generator,
    tiles: Seq<TileSpec>,
    seed: u32,
    st: RunState,
    i: int,
    j: int,
    tier: u8,
    small: u64,
    med: u64,
    fails: u64,
)
    requires
        mid.shaped(),
        cur.shaped(),
        cur.cons.w == mid.cons.w,
        cur.cons.h == mid.cons.h,
        mid.in_bounds(i, j),
        next_cell(st.prio) == Some(cell_index(mid.w(), i, j)),
        mid.cons.elements@ == st.cons,
        mid.gens.elements@ == st.gens,
        mid.out.elements@ == st.out,
        mid.frontier.prio@ == st.prio.update(cell_index(mid.w(), i, j), None),
        choose_spec(
            tiles,
            st.cons[cell_index(mid.w(), i, j)],
            cell_seed_spec(seed, i as u32, j as u32, st.gens[cell_index(mid.w(), i, j)]),
        ) is None,
        ({
            let g = st.gens[cell_index(mid.w(), i, j)];
            &&& tier == 0 <==> g < SMALL_ROLLBACK_LIMIT
            &&& tier == 1 <==> SMALL_ROLLBACK_LIMIT <= g < MED_ROLLBACK_LIMIT
            &&& tier == 2 <==> MED_ROLLBACK_LIMIT <= g
        }),
        tier == 0 ==> cur.rolled_back_from(mid, tiles, i, j, 1) && small == tally(st.small) && med
            == st.med && fails == st.fails,
        tier == 1 ==> cur.rolled_back_from(mid, tiles, i, j, 2) && small == st.small && med
            == tally(st.med) && fails == st.fails,
        tier == 2 ==> cur.gens == mid.gens && cur.frontier == mid.frontier && cur.cons == mid.cons
            && cur.out.elements@ == mid.out.elements@.update(
            cell_index(mid.w(), i, j),
            TileHandle::Failed,
        ) && small == st.small && med == st.med && fails == tally(st.fails),
    ensures
        state_of(cur, small, med, fails) == step(tiles, mid.w(), seed, st),
{
    reveal(step);
    let w = mid.w();
    let h = mid.h();
    let k = cell_index(w, i, j);
    lemma_cell_index(w, h, i, j, i, j);
    lemma_index_cell(w, h, k);
    lemma_cell_index(w, h, i, j, k % w, k / w);
    let s1 = RunState { prio: st.prio.update(k, None), ..st };
    if tier == 0 {
        lemma_rollback_model(mid, cur, tiles, i, j, 1, s1);
    } else if tier == 1 {
        lemma_rollback_model(mid, cur, tiles, i, j, 2, s1);
    }
}

/// Fills a `w` by `h` grid with catalog variants and returns exactly the
/// finished state of the specified run: its handles, row by row, and its
/// counters. Every cell ends up holding a variant of the catalog or a
/// permanent placement failure. The radius-3 tier is never entered, so its
/// counter stays zero.
#[verifier::rlimit(100)]
#[verifier::spinoff_prover]
pub fn generate_tiling(tileset: &TileSet, w: usize, h: usize, seed: u32) -> (r: Tiling)
    requires
        tileset.wf(),
        1 <= w,
        1 <= h,
        w * h <= usize::MAX,
    ensures
        r.handles@ == run(tileset.vec@, w as int, h as int, seed).out,
        r.small_rollbacks == run(tileset.vec@, w as int, h as int, seed).small,
        r.med_rollbacks == run(tileset.vec@, w as int, h as int, seed).med,
        r.place_failures == run(tileset.vec@, w as int, h as int, seed).fails,
        r.big_rollbacks == 0,
        r.handles@.len() == w * h,
        forall|k: int| 0 <= k < r.handles@.len() ==> !(#[trigger] r.handles@[k] is Unset),
        forall|k: int|
            0 <= k < r.handles@.len() ==> (#[trigger] r.handles@[k] matches TileHandle::Tile(t)
                ==> t < tileset.vec@.len()),
        w == 1 && h == 1 && count_matching(tileset.vec@, unconstrained_spec()) > 0 ==> {
            &&& r.small_rollbacks == 0
            &&& r.med_rollbacks == 0
            &&& r.place_failures == 0
            &&& r.handles@[0] is Tile
        },
        w == 2 && h == 1 && never_adjacent(tileset.vec@) ==> {
            &&& r.handles@[0] is Failed || r.handles@[1] is Failed
            &&& r.place_failures >= 1
        },
        w == 1 && h == 2 && never_stacked(tileset.vec@) ==> {
            &&& r.handles@[0] is Failed || r.handles@[1] is Failed
            &&& r.place_failures >= 1
        },
        count_matching(tileset.vec@, unconstrained_spec()) == 0 ==> {
            forall|k: int| 0 <= k < r.handles@.len() ==> (#[trigger] r.handles@[k]) is Failed
        },
{
    let ghost tiles = tileset.vec@;
    let ghost n: int = w * h;
    let free = unconstrained();
    let mut gen = Generator {
        cons: Grid::new(w, h, free),
        gens: Grid::new(w, h, 0u32),
        out: Grid::new(w, h, TileHandle::Unset),
        frontier: Frontier::new(w, h),
    };
    let start = tileset.n_tiles_satisfying_constraints(free);
    let mut j: usize = 0;
    while j < h
        invariant
            gen.shaped(),
            gen.cons.w == w,
            gen.cons.h == h,
            j <= h,
            start == count_matching(tiles, unconstrained_spec()),
            tiles == tileset.vec@,
            forall|a: int, b: int|
                #![trigger gen.cons.at(a, b)]
                gen.in_bounds(a, b) ==> gen.cons.at(a, b) == unconstrained_spec(),
            forall|a: int, b: int|
                #![trigger gen.gens.at(a, b)]
                gen.in_bounds(a, b) ==> gen.gens.at(a, b) == 0,
            forall|a: int, b: int|
                #![trigger gen.out.at(a, b)]
                gen.in_bounds(a, b) ==> gen.out.at(a, b) is Unset,
            forall|a: int, b: int|
                #![trigger gen.frontier.at(a, b)]
                gen.in_bounds(a, b) ==> gen.frontier.at(a, b) == if b < j {
                    Some(start)
                } else {
                    None
                },
        decreases h - j,
    {
        let mut i: usize = 0;
        while i < w
            invariant
                gen.shaped(),
                gen.cons.w == w,
                gen.cons.h == h,
                j < h,
                i <= w,
                start == count_matching(tiles, unconstrained_spec()),
                tiles == tileset.vec@,
                forall|a: int, b: int|
                    #![trigger gen.cons.at(a, b)]
                    gen.in_bounds(a, b) ==> gen.cons.at(a, b) == unconstrained_spec(),
                forall|a: int, b: int|
                    #![trigger gen.gens.at(a, b)]
                    gen.in_bounds(a, b) ==> gen.gens.at(a, b) == 0,
                forall|a: int, b: int|
                    #![trigger gen.out.at(a, b)]
                    gen.in_bounds(a, b) ==> gen.out.at(a, b) is Unset,
                forall|a: int, b: int|
                    #![trigger gen.frontier.at(a, b)]
                    gen.in_bounds(a, b) ==> gen.frontier.at(a, b) == if b < j || (b == j && a
                        < i) {
                        Some(start)
                    } else {
                        None
                    },
            decreases w - i,
        {
            let cnt = tileset.n_tiles_satisfying_constraints(gen.cons.get(i, j));
            gen.frontier.upsert(cnt, (i, j));
            i = i + 1;
        }
        j = j + 1;
    }
    let ghost s0 = initial(tiles, n);
    proof {
        assert forall|k: int| 0 <= k < n implies {
            &&& gen.gens.elements@[k] == s0.gens[k]
            &&& gen.cons.elements@[k] == s0.cons[k]
            &&& gen.out.elements@[k] == s0.out[k]
            &&& gen.frontier.prio@[k] == s0.prio[k]
        } by {
            lemma_index_cell(w as int, h as int, k);
            let a = k % (w as int);
            let b = k / (w as int);
            assert(gen.gens.at(a, b) == gen.gens.elements@[k]);
            assert(gen.cons.at(a, b) == gen.cons.elements@[k]);
            assert(gen.out.at(a, b) == gen.out.elements@[k]);
            assert(gen.frontier.at(a, b) == gen.frontier.prio@[k]);
        }
        assert(gen.gens.elements@ =~= s0.gens);
        assert(gen.cons.elements@ =~= s0.cons);
        assert(gen.out.elements@ =~= s0.out);
        assert(gen.frontier.prio@ =~= s0.prio);
    }
    let mut small_rollbacks: u64 = 0;
    let mut med_rollbacks: u64 = 0;
    let big_rollbacks: u64 = 0;
    let mut place_failures: u64 = 0;
    let ghost mut it: nat = 0;
    loop
        invariant
            gen.inv(tiles),
            tiles == tileset.vec@,
            tileset.wf(),
            gen.cons.w == w,
            gen.cons.h == h,
            n == w * h,
            s0 == initial(tiles, n),
            gen.out.elements@.len() == n,
            state_of(gen, small_rollbacks, med_rollbacks, place_failures) == steps(
                tiles,
                w as int,
                seed,
                s0,
                it,
            ),
            w == 1 && h == 1 && count_matching(tiles, unconstrained_spec()) > 0 ==> {
                &&& small_rollbacks == 0
                &&& med_rollbacks == 0
                &&& place_failures == 0
                &&& gen.cons.at(0, 0) == unconstrained_spec()
                &&& !(gen.out.at(0, 0) is Failed)
            },
            w == 2 && h == 1 && never_adjacent(tiles) ==> {
                &&& !(gen.out.at(0, 0) is Tile && gen.out.at(1, 0) is Tile)
                &&& gen.out.at(0, 0) is Tile && gen.out.at(1, 0) is Unset ==> count_matching(
                    tiles,
                    gen.cons.at(1, 0),
                ) == 0
                &&& gen.out.at(1, 0) is Tile && gen.out.at(0, 0) is Unset ==> count_matching(
                    tiles,
                    gen.cons.at(0, 0),
                ) == 0
                &&& gen.out.at(0, 0) is Failed || gen.out.at(1, 0) is Failed ==> place_failures >= 1
            },
            w == 1 && h == 2 && never_stacked(tiles) ==> {
                &&& !(gen.out.at(0, 0) is Tile && gen.out.at(0, 1) is Tile)
                &&& gen.out.at(0, 0) is Tile && gen.out.at(0, 1) is Unset ==> count_matching(
                    tiles,
                    gen.cons.at(0, 1),
                ) == 0
                &&& gen.out.at(0, 1) is Tile && gen.out.at(0, 0) is Unset ==> count_matching(
                    tiles,
                    gen.cons.at(0, 0),
                ) == 0
                &&& gen.out.at(0, 0) is Failed || gen.out.at(0, 1) is Failed ==> place_failures >= 1
            },
        ensures
            gen.inv(tiles),
            gen.cons.w == w,
            gen.cons.h == h,
            gen.frontier.count() == 0,
            state_of(gen, small_rollbacks, med_rollbacks, place_failures) == steps(
                tiles,
                w as int,
                seed,
                s0,
                it,
            ),
            finished(steps(tiles, w as int, seed, s0, it)),
            w == 1 && h == 1 && count_matching(tiles, unconstrained_spec()) > 0 ==> {
                &&& small_rollbacks == 0
                &&& med_rollbacks == 0
                &&& place_failures == 0
                &&& !(gen.out.at(0, 0) is Failed)
            },
            w == 2 && h == 1 && never_adjacent(tiles) ==> {
                &&& !(gen.out.at(0, 0) is Tile && gen.out.at(1, 0) is Tile)
                &&& gen.out.at(0, 0) is Failed || gen.out.at(1, 0) is Failed ==> place_failures >= 1
            },
            w == 1 && h == 2 && never_stacked(tiles) ==> {
                &&& !(gen.out.at(0, 0) is Tile && gen.out.at(0, 1) is Tile)
                &&& gen.out.at(0, 0) is Failed || gen.out.at(0, 1) is Failed ==> place_failures >= 1
            },
        decreases budget(gen.gens.elements@), gen.frontier.count(),
    {
        let ghost st = state_of(gen, small_rollbacks, med_rollbacks, place_failures);
        let ghost pre = gen;
        let next = gen.frontier.extract_min();
        match next {
            None => {
                proof {
                    lemma_count_present_zero(gen.frontier.prio@);
                    lemma_next_cell_none(gen.frontier.prio@);
                }
                break;
            },
            Some(cell) => {
                let (i, j) = cell;
                let ghost k = cell_index(w as int, i as int, j as int);
                proof {
                    lemma_next_cell(pre.frontier, i as int, j as int);
                    lemma_cell_index(w as int, h as int, i as int, j as int, i as int, j as int);
                    lemma_index_cell(w as int, h as int, k);
                    lemma_cell_index(w as int, h as int, i as int, j as int, k % (w as int), k / (w as int));
                }
                let ghost mid = gen;
                assert(gen.inv_except(tiles, i as int, j as int));
                let g = gen.gens.get(i, j);
                let c = gen.cons.get(i, j);
                let s = cell_seed(seed, i as u32, j as u32, g);
                proof {
                    crate::catalog::lemma_choose_matching(tiles, c, s);
                }
                match tileset.get_tile_satisfying_constraints(c, s) {
                    Some(t) => {
                        gen.place(tileset, i, j, t);
                        proof {
                            lemma_step_place(mid, gen, tiles, seed, st, i as int, j as int, t as int);
                            if w == 2 && h == 1 && never_adjacent(tiles) {
                                if i == 0 {
                                    lemma_blocked(tiles, mid.cons.at(1, 0), t as int, Dir::East);
                                    assert(gen.cons.at(1, 0) == placed_cons(mid.cons.at(1, 0), mid.out.at(1, 0) is Unset, tiles[t as int].constraint, 0, 0, 1, 0));
                                } else {
                                    lemma_blocked(tiles, mid.cons.at(0, 0), t as int, Dir::West);
                                    assert(gen.cons.at(0, 0) == placed_cons(mid.cons.at(0, 0), mid.out.at(0, 0) is Unset, tiles[t as int].constraint, 1, 0, 0, 0));
                                }
                            }
                            if w == 1 && h == 2 && never_stacked(tiles) {
                                if j == 0 {
                                    lemma_blocked(tiles, mid.cons.at(0, 1), t as int, Dir::South);
                                    assert(gen.cons.at(0, 1) == placed_cons(mid.cons.at(0, 1), mid.out.at(0, 1) is Unset, tiles[t as int].constraint, 0, 0, 0, 1));
                                } else {
                                    lemma_blocked(tiles, mid.cons.at(0, 0), t as int, Dir::North);
                                    assert(gen.cons.at(0, 0) == placed_cons(mid.cons.at(0, 0), mid.out.at(0, 0) is Unset, tiles[t as int].constraint, 0, 1, 0, 0));
                                }
                            }
                            if w == 1 && h == 1 {
                                assert(gen.cons.at(0, 0) == placed_cons(mid.cons.at(0, 0), mid.out.at(0, 0) is Unset, tiles[t as int].constraint, 0, 0, 0, 0));
                            }
                        }
                    },
                    None => {
                        let tier = gen.recover(tileset, i, j, g);
                        if tier == 0 {
                            small_rollbacks = small_rollbacks.saturating_add(1);
                        } else if tier == 1 {
                            med_rollbacks = med_rollbacks.saturating_add(1);
                        } else {
                            place_failures = place_failures.saturating_add(1);
                        }
                        proof {
                            lemma_step_recover(
                                mid,
                                gen,
                                tiles,
                                seed,
                                st,
                                i as int,
                                j as int,
                                tier,
                                small_rollbacks,
                                med_rollbacks,
                                place_failures,
                            );
                        }
                    },
                }
                proof {
                    it = it + 1;
                }
            },
        }
    }
    proof {
        lemma_run_is(tiles, w as int, h as int, seed, it);
        lemma_count_present_zero(gen.frontier.prio@);
        assert forall|k: int| 0 <= k < gen.out.elements@.len() implies !(#[trigger] gen.out.elements@[k] is Unset)
            && (gen.out.elements@[k] matches TileHandle::Tile(t) ==> t < tiles.len()) by {
            lemma_index_cell(w as int, h as int, k);
            let a = k % (w as int);
            let b = k / (w as int);
            assert(gen.frontier.at(a, b) is None);
            assert(gen.out.at(a, b) == gen.out.elements@[k]);
        }
        lemma_wildcard_count(tiles);
        if w == 1 && h == 1 && count_matching(tiles, unconstrained_spec()) > 0 {
            assert(gen.out.at(0, 0) == gen.out.elements@[0]);
            assert(gen.frontier.at(0, 0) is None);
        }
        if w == 2 && h == 1 && never_adjacent(tiles) {
            assert(gen.out.at(0, 0) == gen.out.elements@[0]);
            assert(gen.out.at(1, 0) == gen.out.elements@[1]);
            assert(gen.frontier.at(0, 0) is None);
            assert(gen.frontier.at(1, 0) is None);
        }
        if w == 1 && h == 2 && never_stacked(tiles) {
            assert(gen.out.at(0, 0) == gen.out.elements@[0]);
            assert(gen.out.at(0, 1) == gen.out.elements@[1]);
            assert(gen.frontier.at(0, 0) is None);
            assert(gen.frontier.at(0, 1) is None);
        }
    }
    Tiling {
        handles: gen.out.elements,
        small_rollbacks,
        med_rollbacks,
        big_rollbacks,
        place_failures,
    }
}

/// In a run, a step whose cell finds no match below the small limit rolls
/// back with radius one: that cell becomes fully wildcarded with one more
/// generation, and no cell outside the 3x3 square around it changes.
pub proof fn lemma_step_radius_one(tiles: Seq<TileSpec>, w: int, seed: u32, st: RunState, k: int)
    requires
        w >= 1,
        st.gens.len() == st.cons.len() && st.out.len() == st.cons.len() && st.prio.len()
            == st.cons.len(),
        next_cell(st.prio) == Some(k),
        choose_spec(tiles, st.cons[k], cell_seed_spec(seed, (k % w) as u32, (k / w) as u32, st.gens[k]))
            is None,
        st.gens[k] < SMALL_ROLLBACK_LIMIT,
    ensures
        ({
            let s2 = step(tiles, w, seed, st);
            &&& s2.cons[k] == unconstrained_spec()
            &&& s2.gens[k] == st.gens[k] + 1
            &&& s2.small == tally(st.small)
            &&& forall|q: int|
                #![trigger s2.cons[q]]
                0 <= q < st.cons.len() && (q % w - k % w > 1 || k % w - q % w > 1 || q / w - k / w
                    > 1 || k / w - q / w > 1) ==> {
                    &&& s2.cons[q] == st.cons[q]
                    &&& s2.gens[q] == st.gens[q]
                    &&& s2.out[q] == st.out[q]
                    &&& s2.prio[q] == st.prio[q]
                }
        }),
{
    reveal(step);
    assert(0 <= k < st.prio.len());
}

/// In a run, the next cell carries the least of the priorities currently
/// held, which are those of each cell's latest upsert; among equals it is the
/// first in row-major order.
pub proof fn lemma_next_cell_is_least(prio: Seq<Option<usize>>, k: int)
    requires
        next_cell(prio) == Some(k),
    ensures
        0 <= k < prio.len(),
        prio[k] is Some,
        forall|q: int|
            #![trigger prio[q]]
            0 <= q < prio.len() && prio[q] is Some ==> prio[k].unwrap() < prio[q].unwrap() || (
            prio[k].unwrap() == prio[q].unwrap() && k <= q),
{
}

} // verus!
