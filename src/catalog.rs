//! The tile catalog: weighted tile variants, candidate counting and the
//! deterministic weighted choice among matching variants.

use vstd::prelude::*;
use crate::constraint::{Constraint, match_spec, constraint_match};
use crate::krand::{draw_point, uniform_scaled};

verus! {

/// What a grid cell holds: nothing yet, a permanent placement failure, or
/// the index of a catalog variant.
#[derive(Clone, Copy, PartialEq, Eq, Structural, Debug)]
pub enum TileHandle {
    Unset,
    Failed,
    Tile(u32),
}

/// One tile variant: its nine pixel colours in reading order, the
/// constraint its border presents, and its selection weight.
#[derive(Clone, Copy, Debug)]
pub struct TileSpec {
    pub constraint: Constraint,
    pub px_colour: [(u8, u8, u8); 9],
    pub weight: u32,
}

/// The catalog of tile variants; a variant's handle is its position.
pub struct TileSet {
    pub vec: Vec<TileSpec>,
}

/// Number of variants of `s` whose constraint matches `c`.
pub open spec fn count_matching(s: Seq<TileSpec>, c: Constraint) -> nat
    decreases s.len(),
{
    if s.len() == 0 {
        0
    } else {
        count_matching(s.drop_last(), c) + if match_spec(s.last().constraint, c) {
            1nat
        } else {
            0nat
        }
    }
}

/// Total weight of the variants of `s` whose constraint matches `c`.
pub open spec fn matching_weight(s: Seq<TileSpec>, c: Constraint) -> nat
    decreases s.len(),
{
    if s.len() == 0 {
        0
    } else {
        matching_weight(s.drop_last(), c) + if match_spec(s.last().constraint, c) {
            s.last().weight as nat
        } else {
            0nat
        }
    }
}

/// Scanning from position `k`, the first matching variant at which the
/// cumulative matching weight reaches `choice`.
pub open spec fn pick_from(s: Seq<TileSpec>, c: Constraint, choice: int, k: int) -> Option<int>
    decreases s.len() - k,
{
    if k < 0 || k >= s.len() {
        None
    } else if match_spec(s[k].constraint, c) && matching_weight(s.subrange(0, k + 1), c)
        >= choice {
        Some(k)
    } else {
        pick_from(s, c, choice, k + 1)
    }
}

/// The variant that the weighted draw for `seed` picks among those matching `c`.
pub open spec fn choose_spec(s: Seq<TileSpec>, c: Constraint, seed: u32) -> Option<int> {
    pick_from(s, c, draw_point(seed, matching_weight(s, c) as int), 0)
}

/// The weight of the matching variants is at most the largest weight per variant.
pub proof fn lemma_matching_weight_bound(s: Seq<TileSpec>, c: Constraint)
    ensures
        matching_weight(s, c) <= s.len() * (u32::MAX as int),
    decreases s.len(),
{
    if s.len() > 0 {
        lemma_matching_weight_bound(s.drop_last(), c);
    }
}

/// Where some matching variant lies at or after `k` with cumulative weight
/// at least `choice`, the scan from `k` finds a variant.
proof fn lemma_pick_finds(s: Seq<TileSpec>, c: Constraint, choice: int, k: int, m: int)
    requires
        0 <= k <= m < s.len(),
        match_spec(s[m].constraint, c),
        matching_weight(s.subrange(0, m + 1), c) >= choice,
    ensures
        pick_from(s, c, choice, k) is Some,
    decreases m - k,
{
    if k < m {
        lemma_pick_finds(s, c, choice, k + 1, m);
    }
}

/// Whatever the scan from `k` returns is a matching variant of `s`.
proof fn lemma_pick_sound(s: Seq<TileSpec>, c: Constraint, choice: int, k: int)
    ensures
        pick_from(s, c, choice, k) matches Some(h) ==> k <= h < s.len() && match_spec(
            s[h].constraint,
            c,
        ),
    decreases s.len() - k,
{
    if 0 <= k < s.len() {
        lemma_pick_sound(s, c, choice, k + 1);
    }
}

/// With no matching variant, the scan from `k` finds nothing.
proof fn lemma_pick_none(s: Seq<TileSpec>, c: Constraint, choice: int, k: int)
    requires
        forall|m: int| 0 <= m < s.len() ==> !match_spec(#[trigger] s[m].constraint, c),
    ensures
        pick_from(s, c, choice, k) is None,
    decreases s.len() - k,
{
    if 0 <= k < s.len() {
        lemma_pick_none(s, c, choice, k + 1);
    }
}

/// Where some variant matches, the last one carries the whole matching weight.
proof fn lemma_last_match(s: Seq<TileSpec>, c: Constraint) -> (m: int)
    requires
        count_matching(s, c) > 0,
    ensures
        0 <= m < s.len(),
        match_spec(s[m].constraint, c),
        matching_weight(s.subrange(0, m + 1), c) == matching_weight(s, c),
    decreases s.len(),
{
    if match_spec(s.last().constraint, c) {
        assert(s.subrange(0, s.len() as int) =~= s);
        s.len() - 1
    } else {
        let m = lemma_last_match(s.drop_last(), c);
        assert(s.drop_last().subrange(0, m + 1) =~= s.subrange(0, m + 1));
        m
    }
}

/// With no matching variant the count is zero, and conversely.
pub proof fn lemma_count_zero(s: Seq<TileSpec>, c: Constraint)
    ensures
        count_matching(s, c) == 0 <==> forall|m: int|
            0 <= m < s.len() ==> !match_spec(#[trigger] s[m].constraint, c),
    decreases s.len(),
{
    if s.len() > 0 {
        lemma_count_zero(s.drop_last(), c);
        if count_matching(s, c) == 0 {
            assert forall|m: int| 0 <= m < s.len() implies !match_spec(
                #[trigger] s[m].constraint,
                c,
            ) by {
                if m < s.len() - 1 {
                    assert(s.drop_last()[m] == s[m]);
                }
            }
        } else {
            if match_spec(s.last().constraint, c) {
                assert(match_spec(s[s.len() - 1].constraint, c));
            } else {
                let m = choose|m: int|
                    0 <= m < s.drop_last().len() && match_spec(
                        #[trigger] s.drop_last()[m].constraint,
                        c,
                    );
                assert(s.drop_last()[m] == s[m]);
            }
        }
    }
}

/// The weighted choice returns a variant exactly when some variant matches,
/// and the variant it returns matches.
pub proof fn lemma_choose_matching(s: Seq<TileSpec>, c: Constraint, seed: u32)
    ensures
        choose_spec(s, c, seed) is Some <==> count_matching(s, c) > 0,
        choose_spec(s, c, seed) matches Some(h) ==> 0 <= h < s.len() && match_spec(
            s[h].constraint,
            c,
        ),
{
    let total = matching_weight(s, c) as int;
    let choice = draw_point(seed, total);
    lemma_pick_sound(s, c, choice, 0);
    lemma_count_zero(s, c);
    if count_matching(s, c) > 0 {
        let m = lemma_last_match(s, c);
        assert(choice <= total) by {
            crate::krand::lemma_draw_point_bound(seed, total);
        }
        lemma_pick_finds(s, c, choice, 0, m);
    } else {
        lemma_pick_none(s, c, choice, 0);
    }
}

impl TileSet {
    /// Every handle of the catalog fits in a `u32`.
    pub open spec fn wf(&self) -> bool {
        self.vec@.len() <= u32::MAX
    }

    /// A catalog holding `vec`, in that order.
    pub fn new(vec: Vec<TileSpec>) -> (r: TileSet)
        ensures
            r.vec@ == vec@,
    {
        TileSet { vec }
    }

    /// The variant a handle stands for: the catalog entry for a tile, a black
    /// marker tile for a failed placement, a magenta one for an unset cell.
    pub fn get_tilespec(&self, handle: TileHandle) -> (r: TileSpec)
        requires
            handle matches TileHandle::Tile(k) ==> k < self.vec@.len(),
        ensures
            handle matches TileHandle::Tile(k) ==> r == self.vec@[k as int],
            handle is Failed ==> r.weight == 0 && r.px_colour@ == seq![(0u8, 0u8, 0u8); 9],
            handle is Unset ==> r.weight == 0 && r.px_colour@ == seq![(255u8, 0u8, 255u8); 9],
            !(handle is Tile) ==> r.constraint == (Constraint { r: 0, g: 0, b: 0, mask: 0 }),
    {
        match handle {
            TileHandle::Failed => {
                let b = (0u8, 0u8, 0u8);
                TileSpec {
                    constraint: Constraint { r: 0, g: 0, b: 0, mask: 0 },
                    px_colour: [b, b, b, b, b, b, b, b, b],
                    weight: 0,
                }
            },
            TileHandle::Unset => {
                let m = (255u8, 0u8, 255u8);
                TileSpec {
                    constraint: Constraint { r: 0, g: 0, b: 0, mask: 0 },
                    px_colour: [m, m, m, m, m, m, m, m, m],
                    weight: 0,
                }
            },
            TileHandle::Tile(k) => self.vec[k as usize],
        }
    }

    /// Number of variants whose constraint matches `c`.
    pub fn n_tiles_satisfying_constraints(&self, c: Constraint) -> (r: usize)
        ensures
            r == count_matching(self.vec@, c),
    {
        let n = self.vec.len();
        let mut count: usize = 0;
        let mut k: usize = 0;
        while k < n
            invariant
                n == self.vec@.len(),
                k <= n,
                count == count_matching(self.vec@.subrange(0, k as int), c),
                count <= k,
            decreases n - k,
        {
            let ghost s = self.vec@;
            assert(s.subrange(0, k + 1).drop_last() =~= s.subrange(0, k as int));
            if constraint_match(self.vec[k].constraint, c) {
                count = count + 1;
            }
            k = k + 1;
        }
        assert(self.vec@.subrange(0, n as int) =~= self.vec@);
        count
    }

    /// The weighted random choice among the variants matching `c`: with `u`
    /// the total matching weight scaled by the uniform draw for `seed`, the
    /// first matching variant, in catalog order, at which the cumulative
    /// matching weight reaches `u`. `None` where no variant matches.
    pub fn get_tile_satisfying_constraints(&self, c: Constraint, seed: u32) -> (r: Option<u32>)
        requires
            self.wf(),
        ensures
            r matches Some(h) ==> choose_spec(self.vec@, c, seed) == Some(h as int),
            r is None ==> choose_spec(self.vec@, c, seed) is None,
            r is Some <==> count_matching(self.vec@, c) > 0,
    {
        let ghost s = self.vec@;
        let n = self.vec.len();
        let mut total: u64 = 0;
        let mut k: usize = 0;
        while k < n
            invariant
                s == self.vec@,
                n == s.len(),
                n <= u32::MAX,
                k <= n,
                total == matching_weight(s.subrange(0, k as int), c),
            decreases n - k,
        {
            assert(s.subrange(0, k + 1).drop_last() =~= s.subrange(0, k as int));
            proof {
                lemma_matching_weight_bound(s.subrange(0, k + 1), c);
                assert((k + 1) * (u32::MAX as int) <= (u32::MAX as int) * (u32::MAX as int))
                    by (nonlinear_arith)
                    requires k + 1 <= u32::MAX;
            }
            if constraint_match(self.vec[k].constraint, c) {
                total = total + self.vec[k].weight as u64;
            }
            k = k + 1;
        }
        assert(s.subrange(0, n as int) =~= s);
        let choice: u64 = uniform_scaled(seed, total);
        proof {
            lemma_choose_matching(s, c, seed);
        }
        let mut acc: u64 = 0;
        let mut k: usize = 0;
        while k < n
            invariant
                s == self.vec@,
                n == s.len(),
                n <= u32::MAX,
                k <= n,
                acc == matching_weight(s.subrange(0, k as int), c),
                choice as int == draw_point(seed, matching_weight(s, c) as int),
                pick_from(s, c, choice as int, 0) == pick_from(s, c, choice as int, k as int),
                choose_spec(s, c, seed) is Some <==> count_matching(s, c) > 0,
            decreases n - k,
        {
            assert(s.subrange(0, k + 1).drop_last() =~= s.subrange(0, k as int));
            proof {
                lemma_matching_weight_bound(s.subrange(0, k + 1), c);
                assert((k + 1) * (u32::MAX as int) <= (u32::MAX as int) * (u32::MAX as int))
                    by (nonlinear_arith)
                    requires k + 1 <= u32::MAX;
            }
            if constraint_match(self.vec[k].constraint, c) {
                acc = acc + self.vec[k].weight as u64;
                if acc >= choice {
                    return Some(k as u32);
                }
            }
            k = k + 1;
        }
        None
    }
}

/// Nine pixels, row by row, turned a quarter turn clockwise: output cell
/// `3 * i + j` takes input cell `3 * (2 - j) + i`.
pub open spec fn rot_seq(p: Seq<(u8, u8, u8)>) -> Seq<(u8, u8, u8)> {
    seq![p[6], p[3], p[0], p[7], p[4], p[1], p[8], p[5], p[2]]
}

/// The nine pixels of a tile turned a quarter turn clockwise.
pub fn rot_tile(pixel_data: [(u8, u8, u8); 9]) -> (r: [(u8, u8, u8); 9])
    ensures
        r@ == rot_seq(pixel_data@),
{
    let p = pixel_data;
    let r = [p[6], p[3], p[0], p[7], p[4], p[1], p[8], p[5], p[2]];
    assert(r@ =~= rot_seq(p@));
    r
}

} // verus!
