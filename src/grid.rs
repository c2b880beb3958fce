//! A rectangular grid stored row by row, and the four directions between cells.

use vstd::prelude::*;

verus! {

/// One of the four directions from a cell to an adjacent one. North and
/// south change the row (`j`), west and east change the column (`i`).
#[derive(Clone, Copy, PartialEq, Eq, Structural, Debug)]
pub enum Dir {
    North,
    East,
    South,
    West,
}

/// The direction pointing the other way.
pub open spec fn opposite_spec(d: Dir) -> Dir {
    match d {
        Dir::North => Dir::South,
        Dir::East => Dir::West,
        Dir::South => Dir::North,
        Dir::West => Dir::East,
    }
}

impl Dir {
    /// The direction pointing the other way.
    pub fn opposite(&self) -> (r: Dir)
        ensures
            r == opposite_spec(*self),
    {
        match self {
            Dir::North => Dir::South,
            Dir::East => Dir::West,
            Dir::South => Dir::North,
            Dir::West => Dir::East,
        }
    }
}

/// Column offset of one step in direction `d`.
pub open spec fn dir_di(d: Dir) -> int {
    match d {
        Dir::West => -1,
        Dir::East => 1,
        _ => 0,
    }
}

/// Row offset of one step in direction `d`.
pub open spec fn dir_dj(d: Dir) -> int {
    match d {
        Dir::North => -1,
        Dir::South => 1,
        _ => 0,
    }
}

/// Whether the step from `(i, j)` in direction `d` stays inside a `w` by `h` grid.
pub open spec fn step_in_bounds(w: int, h: int, i: int, j: int, d: Dir) -> bool {
    &&& 0 <= i + dir_di(d) < w
    &&& 0 <= j + dir_dj(d) < h
}

/// The coordinate one step from `(i, j)` in direction `dir`.
pub fn idx_in_dir(i: usize, j: usize, dir: Dir) -> (r: (usize, usize))
    requires
        0 <= i + dir_di(dir) <= usize::MAX,
        0 <= j + dir_dj(dir) <= usize::MAX,
    ensures
        r.0 == i + dir_di(dir),
        r.1 == j + dir_dj(dir),
{
    match dir {
        Dir::North => (i, j - 1),
        Dir::South => (i, j + 1),
        Dir::West => (i - 1, j),
        Dir::East => (i + 1, j),
    }
}

/// Position of cell `(i, j)` in the row-by-row storage of a grid `w` cells wide.
pub open spec fn cell_index(w: int, i: int, j: int) -> int {
    j * w + i
}

/// Cells of a `w` by `h` grid have distinct positions inside `0 .. w * h`.
pub proof fn lemma_cell_index(w: int, h: int, i: int, j: int, i2: int, j2: int)
    requires
        0 <= i < w,
        0 <= j < h,
        0 <= i2 < w,
        0 <= j2 < h,
    ensures
        0 <= cell_index(w, i, j) < w * h,
        cell_index(w, i, j) == cell_index(w, i2, j2) ==> i == i2 && j == j2,
{
    assert(0 <= j * w + i < w * h) by (nonlinear_arith)
        requires 0 <= i < w, 0 <= j < h;
    if j < j2 {
        assert(j * w + i < j2 * w + i2) by (nonlinear_arith)
            requires 0 <= i < w, 0 <= i2, j < j2;
    } else if j2 < j {
        assert(j2 * w + i2 < j * w + i) by (nonlinear_arith)
            requires 0 <= i2 < w, 0 <= i, j2 < j;
    }
}

/// A `w` by `h` grid of values; cell `(i, j)` is column `i`, row `j`.
pub struct Grid<T> {
    pub w: usize,
    pub h: usize,
    pub elements: Vec<T>,
}

impl<T: Copy> Grid<T> {
    /// The storage holds exactly one value per cell.
    pub open spec fn wf(&self) -> bool {
        self.elements@.len() == self.w * self.h
    }

    /// Whether `(i, j)` is a cell of this grid.
    pub open spec fn in_bounds(&self, i: int, j: int) -> bool {
        0 <= i < self.w && 0 <= j < self.h
    }

    /// The value at cell `(i, j)`.
    pub open spec fn at(&self, i: int, j: int) -> T {
        self.elements@[cell_index(self.w as int, i, j)]
    }

    /// A `w` by `h` grid with every cell set to `default`.
    pub fn new(w: usize, h: usize, default: T) -> (r: Grid<T>)
        requires
            w * h <= usize::MAX,
        ensures
            r.wf(),
            r.w == w,
            r.h == h,
            forall|i: int, j: int| r.in_bounds(i, j) ==> #[trigger] r.at(i, j) == default,
    {
        let n: usize = w * h;
        let mut elements: Vec<T> = Vec::new();
        let mut k: usize = 0;
        while k < n
            invariant
                k <= n,
                elements@.len() == k,
                forall|m: int| 0 <= m < k ==> #[trigger] elements@[m] == default,
            decreases n - k,
        {
            elements.push(default);
            k = k + 1;
        }
        let r = Grid { w, h, elements };
        assert forall|i: int, j: int| r.in_bounds(i, j) implies #[trigger] r.at(i, j) == default by {
            lemma_cell_index(w as int, h as int, i, j, i, j);
        }
        r
    }

    /// The value at cell `(i, j)`.
    pub fn get(&self, i: usize, j: usize) -> (r: T)
        requires
            self.wf(),
            self.in_bounds(i as int, j as int),
        ensures
            r == self.at(i as int, j as int),
    {
        let n: usize = self.elements.len();
        proof {
            lemma_cell_index(self.w as int, self.h as int, i as int, j as int, i as int, j as int);
            assert(j * self.w <= j * self.w + i);
        }
        self.elements[j * self.w + i]
    }

    /// Replaces the value at cell `(i, j)`; no other cell changes.
    pub fn set(&mut self, i: usize, j: usize, elem: T)
        requires
            old(self).wf(),
            old(self).in_bounds(i as int, j as int),
        ensures
            final(self).wf(),
            final(self).w == old(self).w,
            final(self).h == old(self).h,
            final(self).elements@ == old(self).elements@.update(
                cell_index(old(self).w as int, i as int, j as int),
                elem,
            ),
            forall|a: int, b: int|
                #![trigger final(self).at(a, b)]
                final(self).in_bounds(a, b) ==> final(self).at(a, b) == if a == i && b == j {
                    elem
                } else {
                    old(self).at(a, b)
                },
    {
        let n: usize = self.elements.len();
        proof {
            lemma_cell_index(self.w as int, self.h as int, i as int, j as int, i as int, j as int);
        }
        let k: usize = j * self.w + i;
        self.elements.set(k, elem);
        proof {
            assert forall|a: int, b: int|
                #![trigger self.at(a, b)]
                self.in_bounds(a, b) implies self.at(a, b) == if a == i && b == j {
                    elem
                } else {
                    old(self).at(a, b)
                } by {
                lemma_cell_index(self.w as int, self.h as int, a, b, i as int, j as int);
            }
        }
    }

    /// A mutable reference to the value at cell `(i, j)`; writing through it
    /// changes that cell alone.
    pub fn get_mut(&mut self, i: usize, j: usize) -> (r: &mut T)
        requires
            old(self).wf(),
            old(self).in_bounds(i as int, j as int),
        ensures
            *r == old(self).at(i as int, j as int),
            final(self).w == old(self).w,
            final(self).h == old(self).h,
            final(self).elements@ == old(self).elements@.update(
                cell_index(old(self).w as int, i as int, j as int),
                *final(r),
            ),
    {
        let n: usize = self.elements.len();
        proof {
            lemma_cell_index(self.w as int, self.h as int, i as int, j as int, i as int, j as int);
        }
        let k: usize = j * self.w + i;
        &mut self.elements[k]
    }

    /// A mutable reference to the cell at offset `(oi, oj)` from `(i, j)`, or
    /// `None` where that cell lies outside the grid.
    pub fn offset_mut(&mut self, i: usize, j: usize, oi: i32, oj: i32) -> (r: Option<&mut T>)
        requires
            old(self).wf(),
            old(self).w <= i32::MAX,
            old(self).h <= i32::MAX,
            i <= i32::MAX,
            j <= i32::MAX,
        ensures
            final(self).w == old(self).w,
            final(self).h == old(self).h,
            r is Some <==> old(self).in_bounds(i + oi, j + oj),
            r is None ==> final(self).elements@ == old(self).elements@,
            r matches Some(e) ==> *e == old(self).at(i + oi, j + oj)
                && final(self).elements@ == old(self).elements@.update(
                cell_index(old(self).w as int, i + oi, j + oj),
                *final(e),
            ),
    {
        let ti: i64 = i as i64 + oi as i64;
        let tj: i64 = j as i64 + oj as i64;
        if ti < 0 || ti >= self.w as i64 {
            return None;
        }
        if tj < 0 || tj >= self.h as i64 {
            return None;
        }
        Some(self.get_mut(ti as usize, tj as usize))
    }
    /// A mutable reference to the neighbour of `(i, j)` in direction `dir`,
    /// or `None` where `(i, j)` lies on that edge of the grid.
    pub fn neighbour_mut(&mut self, i: usize, j: usize, dir: Dir) -> (r: Option<&mut T>)
        requires
            old(self).wf(),
            old(self).in_bounds(i as int, j as int),
        ensures
            final(self).w == old(self).w,
            final(self).h == old(self).h,
            r is Some <==> step_in_bounds(old(self).w as int, old(self).h as int, i as int, j as int, dir),
            r is None ==> final(self).elements@ == old(self).elements@,
            r matches Some(e) ==> *e == old(self).at(i + dir_di(dir), j + dir_dj(dir))
                && final(self).elements@ == old(self).elements@.update(
                cell_index(old(self).w as int, i + dir_di(dir), j + dir_dj(dir)),
                *final(e),
            ),
    {
        match dir {
            Dir::North => {
                if j > 0 {
                    Some(self.get_mut(i, j - 1))
                } else {
                    None
                }
            },
            Dir::South => {
                if j < self.h - 1 {
                    Some(self.get_mut(i, j + 1))
                } else {
                    None
                }
            },
            Dir::West => {
                if i > 0 {
                    Some(self.get_mut(i - 1, j))
                } else {
                    None
                }
            },
            Dir::East => {
                if i < self.w - 1 {
                    Some(self.get_mut(i + 1, j))
                } else {
                    None
                }
            },
        }
    }
}

} // verus!
