//! Border constraints: the eight border pixels of a 3x3 tile packed into
//! bit words, with a wildcard mask.
//!
//! Each word holds one byte per border pixel, in reading order from the top
//! left (bits 56..63) to the bottom right (bits 0..7), the centre left out:
//! the top row takes the three high bytes, the bottom row the three low ones,
//! and the middle row's left and right pixels the two bytes between.

use vstd::prelude::*;
use crate::grid::Dir;

verus! {

/// Red, green and blue words of the eight border pixels, and the wildcard
/// mask: a set bit of `mask` means that bit of each channel is not constrained.
#[derive(Clone, Copy, PartialEq, Eq, Structural, Debug)]
pub struct Constraint {
    pub r: u64,
    pub g: u64,
    pub b: u64,
    pub mask: u64,
}

/// Every bit wildcarded.
pub const FULL_MASK: u64 = 0xFFFFFFFFFFFFFFFF;

/// The constraint that every tile satisfies.
pub open spec fn unconstrained_spec() -> Constraint {
    Constraint { r: 0, g: 0, b: 0, mask: FULL_MASK }
}

/// The constraint that every tile satisfies.
pub fn unconstrained() -> (r: Constraint)
    ensures
        r == unconstrained_spec(),
{
    Constraint { r: 0, g: 0, b: 0, mask: FULL_MASK }
}

/// Two constraints agree on every bit that neither of them wildcards.
pub open spec fn match_spec(c1: Constraint, c2: Constraint) -> bool {
    let m = c1.mask | c2.mask;
    &&& c1.r | m == c2.r | m
    &&& c1.g | m == c2.g | m
    &&& c1.b | m == c2.b | m
}

/// Whether `c1` and `c2` agree on every bit that neither of them wildcards.
pub fn constraint_match(c1: Constraint, c2: Constraint) -> (r: bool)
    ensures
        r == match_spec(c1, c2),
{
    let mask = c1.mask | c2.mask;
    c1.r | mask == c2.r | mask && c1.g | mask == c2.g | mask && c1.b | mask == c2.b | mask
}

/// Matching is symmetric, and the fully wildcarded constraint matches every constraint.
pub proof fn lemma_match_symmetric_and_wildcard(c1: Constraint, c2: Constraint)
    ensures
        match_spec(c1, c2) == match_spec(c2, c1),
        match_spec(unconstrained_spec(), c2),
        match_spec(c2, unconstrained_spec()),
{
    let (r1, g1, b1, m1) = (c1.r, c1.g, c1.b, c1.mask);
    let (r2, g2, b2, m2) = (c2.r, c2.g, c2.b, c2.mask);
    assert((m1 | m2) == (m2 | m1)) by (bit_vector);
    assert(((0u64 | (0xFFFFFFFFFFFFFFFFu64 | m2)) == (r2 | (0xFFFFFFFFFFFFFFFFu64 | m2)))) by (bit_vector);
    assert(((0u64 | (0xFFFFFFFFFFFFFFFFu64 | m2)) == (g2 | (0xFFFFFFFFFFFFFFFFu64 | m2)))) by (bit_vector);
    assert(((0u64 | (0xFFFFFFFFFFFFFFFFu64 | m2)) == (b2 | (0xFFFFFFFFFFFFFFFFu64 | m2)))) by (bit_vector);
    assert(((r2 | (m2 | 0xFFFFFFFFFFFFFFFFu64)) == (0u64 | (m2 | 0xFFFFFFFFFFFFFFFFu64)))) by (bit_vector);
    assert(((g2 | (m2 | 0xFFFFFFFFFFFFFFFFu64)) == (0u64 | (m2 | 0xFFFFFFFFFFFFFFFFu64)))) by (bit_vector);
    assert(((b2 | (m2 | 0xFFFFFFFFFFFFFFFFu64)) == (0u64 | (m2 | 0xFFFFFFFFFFFFFFFFu64)))) by (bit_vector);
}

/// Mirror of a word across the horizontal axis: the top row's three bytes
/// and the bottom row's three bytes trade places; the middle row stays.
pub open spec fn flip_ud_spec(x: u64) -> u64 {
    (x & 0x000000FFFF000000) | (x >> 40u64) | (x << 40u64)
}

/// Mirror of a word across the vertical axis: left and right pixels of
/// each row trade places; the top-middle and bottom-middle bytes stay.
pub open spec fn flip_lr_spec(x: u64) -> u64 {
    (x & 0x00FF00000000FF00) | ((x & 0xFF00000000FF0000) >> 16u64) | ((x & 0x0000FF00000000FF)
        << 16u64) | ((x & 0x00000000FF000000) << 8u64) | ((x & 0x000000FF00000000) >> 8u64)
}

/// Mirrors a word across the horizontal axis.
pub fn flip_ud(x: u64) -> (r: u64)
    ensures
        r == flip_ud_spec(x),
{
    (x & 0x000000FFFF000000) | (x >> 40u64) | (x << 40u64)
}

/// Mirrors a word across the vertical axis.
pub fn flip_lr(x: u64) -> (r: u64)
    ensures
        r == flip_lr_spec(x),
{
    (x & 0x00FF00000000FF00) | ((x & 0xFF00000000FF0000) >> 16u64) | ((x & 0x0000FF00000000FF)
        << 16u64) | ((x & 0x00000000FF000000) << 8u64) | ((x & 0x000000FF00000000) >> 8u64)
}

/// Every word of `c`, mirrored across the horizontal axis.
pub open spec fn constraint_flip_ud_spec(c: Constraint) -> Constraint {
    Constraint {
        r: flip_ud_spec(c.r),
        g: flip_ud_spec(c.g),
        b: flip_ud_spec(c.b),
        mask: flip_ud_spec(c.mask),
    }
}

/// Every word of `c`, mirrored across the vertical axis.
pub open spec fn constraint_flip_lr_spec(c: Constraint) -> Constraint {
    Constraint {
        r: flip_lr_spec(c.r),
        g: flip_lr_spec(c.g),
        b: flip_lr_spec(c.b),
        mask: flip_lr_spec(c.mask),
    }
}

/// The pattern that a neighbour across the horizontal axis presents.
pub fn constraint_flip_ud(c: Constraint) -> (r: Constraint)
    ensures
        r == constraint_flip_ud_spec(c),
{
    Constraint { r: flip_ud(c.r), g: flip_ud(c.g), b: flip_ud(c.b), mask: flip_ud(c.mask) }
}

/// The pattern that a neighbour across the vertical axis presents.
pub fn constraint_flip_lr(c: Constraint) -> (r: Constraint)
    ensures
        r == constraint_flip_lr_spec(c),
{
    Constraint { r: flip_lr(c.r), g: flip_lr(c.g), b: flip_lr(c.b), mask: flip_lr(c.mask) }
}

/// Bits of the top row: the range narrowed on the cell south of a placed tile.
pub const DIR_MASK_SOUTH: u64 = 0xFFFFFF0000000000;

/// Bits of the bottom row: the range narrowed on the cell north of a placed tile.
pub const DIR_MASK_NORTH: u64 = 0x0000000000FFFFFF;

/// Bits of the left column: the range narrowed on the cell east of a placed tile.
pub const DIR_MASK_EAST: u64 = 0xFF0000FF00FF0000;

/// Bits of the right column: the range narrowed on the cell west of a placed tile.
pub const DIR_MASK_WEST: u64 = 0x0000FF00FF0000FF;

/// The bit range narrowed on the neighbour that lies in direction `d` of a placed tile.
pub open spec fn dir_mask(d: Dir) -> u64 {
    match d {
        Dir::North => DIR_MASK_NORTH,
        Dir::South => DIR_MASK_SOUTH,
        Dir::East => DIR_MASK_EAST,
        Dir::West => DIR_MASK_WEST,
    }
}

/// The pattern `source` presents to a neighbour in direction `d`.
pub open spec fn mirror_for(d: Dir, source: Constraint) -> Constraint {
    match d {
        Dir::North | Dir::South => constraint_flip_ud_spec(source),
        Dir::East | Dir::West => constraint_flip_lr_spec(source),
    }
}

/// Word `t` with the bits of `dm` taken from `s`.
pub open spec fn splice(t: u64, s: u64, dm: u64) -> u64 {
    (t & !dm) | (dm & s)
}

/// `target` with the bit range of direction `d` replaced by the mirrored `source`.
pub open spec fn propagate_spec(target: Constraint, source: Constraint, d: Dir) -> Constraint {
    let f = mirror_for(d, source);
    let dm = dir_mask(d);
    Constraint {
        r: splice(target.r, f.r, dm),
        g: splice(target.g, f.g, dm),
        b: splice(target.b, f.b, dm),
        mask: splice(target.mask, f.mask, dm),
    }
}

/// Writes the mirror of `source` into the bit range of `target` that faces
/// direction `dir`; every other bit of `target` stays as it was.
pub fn constraint_add(target: &mut Constraint, source: Constraint, dir: Dir)
    ensures
        *final(target) == propagate_spec(*old(target), source, dir),
{
    let (dir_mask, flipped_source) = match dir {
        Dir::North => (DIR_MASK_NORTH, constraint_flip_ud(source)),
        Dir::South => (DIR_MASK_SOUTH, constraint_flip_ud(source)),
        Dir::East => (DIR_MASK_EAST, constraint_flip_lr(source)),
        Dir::West => (DIR_MASK_WEST, constraint_flip_lr(source)),
    };
    target.mask = (target.mask & !dir_mask) | (dir_mask & flipped_source.mask);
    target.r = (target.r & !dir_mask) | (dir_mask & flipped_source.r);
    target.g = (target.g & !dir_mask) | (dir_mask & flipped_source.g);
    target.b = (target.b & !dir_mask) | (dir_mask & flipped_source.b);
}

/// `c` with every bit outside `dm` wildcarded.
pub open spec fn restrict(c: Constraint, dm: u64) -> Constraint {
    Constraint { r: c.r, g: c.g, b: c.b, mask: c.mask | !dm }
}

/// After propagating `source` in direction `d`, the narrowed range of the
/// target matches the mirrored source.
pub proof fn lemma_propagate_matches_mirror(target: Constraint, source: Constraint, d: Dir)
    ensures
        match_spec(
            restrict(propagate_spec(target, source, d), dir_mask(d)),
            mirror_for(d, source),
        ),
{
    let f = mirror_for(d, source);
    let dm = dir_mask(d);
    let tm = target.mask;
    let fm = f.mask;
    let (tr, tg, tb) = (target.r, target.g, target.b);
    let (fr, fg, fb) = (f.r, f.g, f.b);
    assert(((tr & !dm) | (dm & fr)) | ((((tm & !dm) | (dm & fm)) | !dm) | fm) == fr | ((((tm
        & !dm) | (dm & fm)) | !dm) | fm)) by (bit_vector);
    assert(((tg & !dm) | (dm & fg)) | ((((tm & !dm) | (dm & fm)) | !dm) | fm) == fg | ((((tm
        & !dm) | (dm & fm)) | !dm) | fm)) by (bit_vector);
    assert(((tb & !dm) | (dm & fb)) | ((((tm & !dm) | (dm & fm)) | !dm) | fm) == fb | ((((tm
        & !dm) | (dm & fm)) | !dm) | fm)) by (bit_vector);
}

/// Propagating a fully specified constraint never widens the target: no bit
/// becomes wildcarded that was not before, and outside the narrowed range
/// nothing changes.
pub proof fn lemma_propagate_narrows(target: Constraint, source: Constraint, d: Dir)
    requires
        source.mask == 0,
    ensures
        propagate_spec(target, source, d).mask & !target.mask == 0,
        propagate_spec(target, source, d).mask & !dir_mask(d) == target.mask & !dir_mask(d),
{
    let dm = dir_mask(d);
    let tm = target.mask;
    assert(flip_ud_spec(0) == 0) by (bit_vector);
    assert(flip_lr_spec(0) == 0) by (bit_vector);
    assert(((tm & !dm) | (dm & 0u64)) & !tm == 0) by (bit_vector);
    assert(((tm & !dm) | (dm & 0u64)) & !dm == tm & !dm) by (bit_vector);
}

/// What matches a narrowed accumulator also matches the bare narrowed range:
/// the rest of the accumulator only adds requirements.
pub proof fn lemma_match_propagated_range(y: Constraint, acc: Constraint, source: Constraint, d: Dir)
    requires
        match_spec(y, propagate_spec(acc, source, d)),
    ensures
        match_spec(y, propagate_spec(unconstrained_spec(), source, d)),
{
    let f = mirror_for(d, source);
    let dm = dir_mask(d);
    let (ym, am, fm) = (y.mask, acc.mask, f.mask);
    let (yr, yg, yb) = (y.r, y.g, y.b);
    let (ar, ag, ab) = (acc.r, acc.g, acc.b);
    let (fr, fg, fb) = (f.r, f.g, f.b);
    assert((yr | (ym | ((am & !dm) | (dm & fm)))) == (((ar & !dm) | (dm & fr)) | (ym | ((am & !dm)
        | (dm & fm)))) ==> (yr | (ym | ((0xFFFFFFFFFFFFFFFFu64 & !dm) | (dm & fm)))) == (((0u64
        & !dm) | (dm & fr)) | (ym | ((0xFFFFFFFFFFFFFFFFu64 & !dm) | (dm & fm))))) by (bit_vector);
    assert((yg | (ym | ((am & !dm) | (dm & fm)))) == (((ag & !dm) | (dm & fg)) | (ym | ((am & !dm)
        | (dm & fm)))) ==> (yg | (ym | ((0xFFFFFFFFFFFFFFFFu64 & !dm) | (dm & fm)))) == (((0u64
        & !dm) | (dm & fg)) | (ym | ((0xFFFFFFFFFFFFFFFFu64 & !dm) | (dm & fm))))) by (bit_vector);
    assert((yb | (ym | ((am & !dm) | (dm & fm)))) == (((ab & !dm) | (dm & fb)) | (ym | ((am & !dm)
        | (dm & fm)))) ==> (yb | (ym | ((0xFFFFFFFFFFFFFFFFu64 & !dm) | (dm & fm)))) == (((0u64
        & !dm) | (dm & fb)) | (ym | ((0xFFFFFFFFFFFFFFFFu64 & !dm) | (dm & fm))))) by (bit_vector);
}

/// One colour channel of a 3x3 tile, packed into a border word.
pub open spec fn pack_border(s: Seq<u8>) -> u64 {
    (s[0] as u64) << 56u64 | (s[1] as u64) << 48u64 | (s[2] as u64) << 40u64 | (s[3] as u64)
        << 32u64 | (s[5] as u64) << 24u64 | (s[6] as u64) << 16u64 | (s[7] as u64) << 8u64 | (
    s[8] as u64)
}

/// The fully specified constraint of a tile whose pixels, in reading order, are `px`.
pub open spec fn from_px_spec(px: Seq<(u8, u8, u8)>) -> Constraint {
    Constraint {
        r: pack_border(px.map_values(|p: (u8, u8, u8)| p.0)),
        g: pack_border(px.map_values(|p: (u8, u8, u8)| p.1)),
        b: pack_border(px.map_values(|p: (u8, u8, u8)| p.2)),
        mask: 0,
    }
}

/// The fully specified constraint of a tile whose nine pixels, in reading
/// order, are `px_colour`; the centre pixel plays no part.
pub fn constraint_from_px_colour(px_colour: [(u8, u8, u8); 9]) -> (r: Constraint)
    ensures
        r == from_px_spec(px_colour@),
{
    let p = px_colour;
    let r: u64 = (p[0].0 as u64) << 56u64 | (p[1].0 as u64) << 48u64 | (p[2].0 as u64) << 40u64
        | (p[3].0 as u64) << 32u64 | (p[5].0 as u64) << 24u64 | (p[6].0 as u64) << 16u64 | (
    p[7].0 as u64) << 8u64 | (p[8].0 as u64);
    let g: u64 = (p[0].1 as u64) << 56u64 | (p[1].1 as u64) << 48u64 | (p[2].1 as u64) << 40u64
        | (p[3].1 as u64) << 32u64 | (p[5].1 as u64) << 24u64 | (p[6].1 as u64) << 16u64 | (
    p[7].1 as u64) << 8u64 | (p[8].1 as u64);
    let b: u64 = (p[0].2 as u64) << 56u64 | (p[1].2 as u64) << 48u64 | (p[2].2 as u64) << 40u64
        | (p[3].2 as u64) << 32u64 | (p[5].2 as u64) << 24u64 | (p[6].2 as u64) << 16u64 | (
    p[7].2 as u64) << 8u64 | (p[8].2 as u64);
    Constraint { r, g, b, mask: 0 }
}

} // verus!
