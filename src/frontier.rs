//! The entropy-ordered frontier: a table of pending cells keyed by grid
//! coordinate, each with its latest priority, from which the cell of least
//! priority is taken first.

use vstd::prelude::*;
use crate::grid::{cell_index, lemma_cell_index};

verus! {

/// Pending cells of a `w` by `h` grid: `prio[cell_index(w, i, j)]` is the
/// latest priority of cell `(i, j)`, or `None` where the cell is not pending.
pub struct Frontier {
    pub w: usize,
    pub h: usize,
    pub prio: Vec<Option<usize>>,
}

/// Number of entries of `s` that are present.
pub open spec fn count_present(s: Seq<Option<usize>>) -> nat
    decreases s.len(),
{
    if s.len() == 0 {
        0
    } else {
        count_present(s.drop_last()) + if s.last() is Some {
            1nat
        } else {
            0nat
        }
    }
}

/// Replacing one entry changes the count by what that entry contributes.
pub proof fn lemma_count_present_update(s: Seq<Option<usize>>, k: int, v: Option<usize>)
    requires
        0 <= k < s.len(),
    ensures
        count_present(s.update(k, v)) + (if s[k] is Some {
            1int
        } else {
            0int
        }) == count_present(s) + (if v is Some {
            1int
        } else {
            0int
        }),
        count_present(s) <= s.len(),
    decreases s.len(),
{
    let t = s.update(k, v);
    if k == s.len() - 1 {
        assert(t.drop_last() =~= s.drop_last());
        lemma_count_present_bound(s.drop_last());
    } else {
        assert(t.drop_last() =~= s.drop_last().update(k, v));
        lemma_count_present_update(s.drop_last(), k, v);
    }
}

/// No more entries are present than there are entries.
pub proof fn lemma_count_present_bound(s: Seq<Option<usize>>)
    ensures
        count_present(s) <= s.len(),
    decreases s.len(),
{
    if s.len() > 0 {
        lemma_count_present_bound(s.drop_last());
    }
}

/// Where no entry is present the count is zero, and conversely.
pub proof fn lemma_count_present_zero(s: Seq<Option<usize>>)
    ensures
        count_present(s) == 0 <==> forall|k: int| 0 <= k < s.len() ==> #[trigger] s[k] is None,
    decreases s.len(),
{
    if s.len() > 0 {
        lemma_count_present_zero(s.drop_last());
        if count_present(s) != 0 && s.last() is None {
            let k = choose|k: int| 0 <= k < s.drop_last().len() && #[trigger] s.drop_last()[k] is Some;
            assert(s[k] is Some);
        }
        if count_present(s) == 0 {
            assert forall|k: int| 0 <= k < s.len() implies #[trigger] s[k] is None by {
                if k < s.len() - 1 {
                    assert(s.drop_last()[k] == s[k]);
                }
            }
        }
    }
}

/// The table after applying the upserts `ops`, each a (position, priority)
/// pair, in order.
pub open spec fn apply_upserts(t: Seq<Option<usize>>, ops: Seq<(int, usize)>) -> Seq<Option<usize>>
    decreases ops.len(),
{
    if ops.len() == 0 {
        t
    } else {
        apply_upserts(t, ops.drop_last()).update(ops.last().0, Some(ops.last().1))
    }
}

/// After any sequence of upserts, a key holds the priority of its latest
/// upsert, whatever the earlier ones on it and on other keys were.
pub proof fn lemma_latest_upsert_wins(t: Seq<Option<usize>>, ops: Seq<(int, usize)>, m: int)
    requires
        0 <= m < ops.len(),
        forall|n: int| 0 <= n < ops.len() ==> 0 <= (#[trigger] ops[n]).0 < t.len(),
        forall|n: int| m < n < ops.len() ==> (#[trigger] ops[n]).0 != ops[m].0,
    ensures
        apply_upserts(t, ops).len() == t.len(),
        apply_upserts(t, ops)[ops[m].0] == Some(ops[m].1),
    decreases ops.len(),
{
    lemma_apply_upserts_len(t, ops);
    let p = ops.drop_last();
    assert forall|n: int| 0 <= n < p.len() implies 0 <= (#[trigger] p[n]).0 < t.len() by {
        assert(p[n] == ops[n]);
    }
    lemma_apply_upserts_len(t, p);
    assert(ops.last() == ops[ops.len() - 1]);
    if m < ops.len() - 1 {
        assert forall|n: int| m < n < p.len() implies (#[trigger] p[n]).0 != p[m].0 by {
            assert(p[n] == ops[n]);
        }
        lemma_latest_upsert_wins(t, p, m);
        assert(p[m] == ops[m]);
    }
}

/// Upserts keep the table's length.
pub proof fn lemma_apply_upserts_len(t: Seq<Option<usize>>, ops: Seq<(int, usize)>)
    requires
        forall|n: int| 0 <= n < ops.len() ==> 0 <= (#[trigger] ops[n]).0 < t.len(),
    ensures
        apply_upserts(t, ops).len() == t.len(),
    decreases ops.len(),
{
    if ops.len() > 0 {
        let p = ops.drop_last();
        assert forall|n: int| 0 <= n < p.len() implies 0 <= (#[trigger] p[n]).0 < t.len() by {
            assert(p[n] == ops[n]);
        }
        lemma_apply_upserts_len(t, p);
        assert(ops.last() == ops[ops.len() - 1]);
    }
}

/// Whether cell `(i, j)` comes before cell `(a, b)` in row-major order, or is it.
pub open spec fn row_major_le(i: int, j: int, a: int, b: int) -> bool {
    j < b || (j == b && i <= a)
}

impl Frontier {
    /// One entry per cell of the grid.
    pub open spec fn wf(&self) -> bool {
        self.prio@.len() == self.w * self.h
    }

    /// Whether `(i, j)` is a cell of the grid.
    pub open spec fn in_bounds(&self, i: int, j: int) -> bool {
        0 <= i < self.w && 0 <= j < self.h
    }

    /// The latest priority of cell `(i, j)`, or `None` where it is not pending.
    pub open spec fn at(&self, i: int, j: int) -> Option<usize> {
        self.prio@[cell_index(self.w as int, i, j)]
    }

    /// Number of pending cells.
    pub open spec fn count(&self) -> nat {
        count_present(self.prio@)
    }

    /// An empty frontier over a `w` by `h` grid.
    pub fn new(w: usize, h: usize) -> (r: Frontier)
        requires
            w * h <= usize::MAX,
        ensures
            r.wf(),
            r.w == w,
            r.h == h,
            forall|k: int| 0 <= k < r.prio@.len() ==> #[trigger] r.prio@[k] is None,
            forall|a: int, b: int| r.in_bounds(a, b) ==> #[trigger] r.at(a, b) is None,
            r.count() == 0,
    {
        let n: usize = w * h;
        let mut prio: Vec<Option<usize>> = Vec::new();
        let mut k: usize = 0;
        while k < n
            invariant
                k <= n,
                prio@.len() == k,
                forall|m: int| 0 <= m < k ==> #[trigger] prio@[m] is None,
            decreases n - k,
        {
            prio.push(None);
            k = k + 1;
        }
        proof {
            lemma_count_present_zero(prio@);
        }
        let r = Frontier { w, h, prio };
        assert forall|a: int, b: int| r.in_bounds(a, b) implies #[trigger] r.at(a, b) is None by {
            lemma_cell_index(w as int, h as int, a, b, a, b);
        }
        r
    }

    /// Inserts cell `coord` with `priority`, or overwrites its priority where
    /// it is already pending.
    pub fn upsert(&mut self, priority: usize, coord: (usize, usize))
        requires
            old(self).wf(),
            old(self).in_bounds(coord.0 as int, coord.1 as int),
        ensures
            final(self).wf(),
            final(self).w == old(self).w,
            final(self).h == old(self).h,
            final(self).prio@ == old(self).prio@.update(
                cell_index(old(self).w as int, coord.0 as int, coord.1 as int),
                Some(priority),
            ),
            forall|a: int, b: int|
                #![trigger final(self).at(a, b)]
                final(self).in_bounds(a, b) ==> final(self).at(a, b) == if a == coord.0 && b
                    == coord.1 {
                    Some(priority)
                } else {
                    old(self).at(a, b)
                },
            final(self).count() == old(self).count() + if old(self).at(
                coord.0 as int,
                coord.1 as int,
            ) is None {
                1int
            } else {
                0int
            },
    {
        let (i, j) = coord;
        let n: usize = self.prio.len();
        proof {
            lemma_cell_index(self.w as int, self.h as int, i as int, j as int, i as int, j as int);
            lemma_count_present_update(self.prio@, cell_index(self.w as int, i as int, j as int), Some(priority));
        }
        let k: usize = j * self.w + i;
        self.prio.set(k, Some(priority));
        proof {
            assert forall|a: int, b: int|
                #![trigger self.at(a, b)]
                self.in_bounds(a, b) implies self.at(a, b) == if a == i && b == j {
                    Some(priority)
                } else {
                    old(self).at(a, b)
                } by {
                lemma_cell_index(self.w as int, self.h as int, a, b, i as int, j as int);
            }
        }
    }

    /// Removes and returns the pending cell of least priority, the first in
    /// row-major order among equals; `None` where no cell is pending.
    pub fn extract_min(&mut self) -> (r: Option<(usize, usize)>)
        requires
            old(self).wf(),
        ensures
            final(self).wf(),
            final(self).w == old(self).w,
            final(self).h == old(self).h,
            r is None ==> *final(self) == *old(self) && old(self).count() == 0,
            r is None <==> old(self).count() == 0,
            r matches Some(c) ==> {
                &&& old(self).in_bounds(c.0 as int, c.1 as int)
                &&& old(self).at(c.0 as int, c.1 as int) is Some
                &&& forall|a: int, b: int|
                    #![trigger old(self).at(a, b)]
                    old(self).in_bounds(a, b) && old(self).at(a, b) is Some ==> {
                        let p = old(self).at(c.0 as int, c.1 as int).unwrap();
                        let q = old(self).at(a, b).unwrap();
                        p < q || (p == q && row_major_le(c.0 as int, c.1 as int, a, b))
                    }
                &&& final(self).prio@ == old(self).prio@.update(
                    cell_index(old(self).w as int, c.0 as int, c.1 as int),
                    None,
                )
                &&& forall|a: int, b: int|
                    #![trigger final(self).at(a, b)]
                    final(self).in_bounds(a, b) ==> final(self).at(a, b) == if a == c.0 && b
                        == c.1 {
                        None
                    } else {
                        old(self).at(a, b)
                    }
                &&& final(self).count() + 1 == old(self).count()
            },
    {
        let n: usize = self.prio.len();
        let w = self.w;
        let h = self.h;
        let mut best: Option<(usize, usize, usize)> = None;
        let mut j: usize = 0;
        while j < h
            invariant
                self.wf(),
                w == self.w,
                h == self.h,
                n == self.prio@.len(),
                j <= h,
                best matches Some(t) ==> {
                    &&& self.in_bounds(t.1 as int, t.2 as int)
                    &&& self.at(t.1 as int, t.2 as int) == Some(t.0)
                    &&& t.2 < j
                },
                best is None ==> forall|a: int, b: int|
                    #![trigger self.at(a, b)]
                    self.in_bounds(a, b) && b < j ==> self.at(a, b) is None,
                best matches Some(t) ==> forall|a: int, b: int|
                    #![trigger self.at(a, b)]
                    self.in_bounds(a, b) && b < j && self.at(a, b) is Some ==> {
                        let q = self.at(a, b).unwrap();
                        t.0 < q || (t.0 == q && row_major_le(t.1 as int, t.2 as int, a, b))
                    },
            decreases h - j,
        {
            let mut i: usize = 0;
            while i < w
                invariant
                    self.wf(),
                    w == self.w,
                    h == self.h,
                    n == self.prio@.len(),
                    j < h,
                    i <= w,
                    best matches Some(t) ==> {
                        &&& self.in_bounds(t.1 as int, t.2 as int)
                        &&& self.at(t.1 as int, t.2 as int) == Some(t.0)
                        &&& row_major_le(t.1 as int, t.2 as int, i as int, j as int)
                        &&& !(t.1 == i && t.2 == j)
                    },
                    best is None ==> forall|a: int, b: int|
                        #![trigger self.at(a, b)]
                        self.in_bounds(a, b) && (b < j || (b == j && a < i)) ==> self.at(a, b) is None,
                    best matches Some(t) ==> forall|a: int, b: int|
                        #![trigger self.at(a, b)]
                        self.in_bounds(a, b) && (b < j || (b == j && a < i)) && self.at(a, b) is Some ==> {
                            let q = self.at(a, b).unwrap();
                            t.0 < q || (t.0 == q && row_major_le(t.1 as int, t.2 as int, a, b))
                        },
                decreases w - i,
            {
                proof {
                    lemma_cell_index(w as int, h as int, i as int, j as int, i as int, j as int);
                }
                let k: usize = j * w + i;
                match self.prio[k] {
                    Some(p) => {
                        match best {
                            Some(t) => {
                                if p < t.0 {
                                    best = Some((p, i, j));
                                }
                            },
                            None => {
                                best = Some((p, i, j));
                            },
                        }
                    },
                    None => {},
                }
                i = i + 1;
            }
            j = j + 1;
        }
        match best {
            Some(t) => {
                let (_, bi, bj) = t;
                proof {
                    lemma_cell_index(w as int, h as int, bi as int, bj as int, bi as int, bj as int);
                    lemma_count_present_update(self.prio@, cell_index(w as int, bi as int, bj as int), None);
                }
                let k: usize = bj * w + bi;
                self.prio.set(k, None);
                proof {
                    assert forall|a: int, b: int|
                        #![trigger self.at(a, b)]
                        self.in_bounds(a, b) implies self.at(a, b) == if a == bi && b == bj {
                            None
                        } else {
                            old(self).at(a, b)
                        } by {
                        lemma_cell_index(w as int, h as int, a, b, bi as int, bj as int);
                    }
                }
                Some((bi, bj))
            },
            None => {
                proof {
                    assert forall|k: int| 0 <= k < self.prio@.len() implies #[trigger] self.prio@[k] is None by {
                        lemma_index_cell(w as int, h as int, k);
                        let a = k % (w as int);
                        let b = k / (w as int);
                        assert(self.at(a, b) is None);
                    }
                    lemma_count_present_zero(self.prio@);
                }
                None
            },
        }
    }
}

/// Every position inside `0 .. w * h` is the position of a cell.
pub proof fn lemma_index_cell(w: int, h: int, k: int)
    requires
        w >= 0,
        h >= 0,
        0 <= k < w * h,
    ensures
        0 <= k % w < w,
        0 <= k / w < h,
        cell_index(w, k % w, k / w) == k,
{
    assert(w > 0) by (nonlinear_arith)
        requires 0 <= k < w * h, w >= 0, h >= 0;
    assert(0 <= k % w < w && k == (k / w) * w + k % w && 0 <= k / w) by (nonlinear_arith)
        requires w > 0, k >= 0;
    assert(k / w < h) by (nonlinear_arith)
        requires w > 0, k >= 0, k < w * h, k == (k / w) * w + k % w, 0 <= k % w < w;
}

} // verus!
