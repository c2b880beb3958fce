//! Building a tile catalog from an atlas raster cut into 4x4 blocks.
//!
//! In each block the 3x3 top-left pixels are the tile; the pixel at (3, 3)
//! marks a block to skip when pure red; the pixel at (3, 0) asks for the
//! three quarter-turned variants too when pure blue; the red and green
//! values of the pixel at (0, 3) add up to the weight.

use vstd::prelude::*;
use crate::catalog::{TileSet, TileSpec, rot_seq, rot_tile};
use crate::constraint::{constraint_from_px_colour, from_px_spec};
use crate::grid::Grid;

verus! {

/// Marker colour of a block to skip.
pub const SKIP_MARKER: (u8, u8, u8) = (0xFF, 0x00, 0x00);

/// Marker colour of a block whose rotations are wanted too.
pub const ROTATE_MARKER: (u8, u8, u8) = (0x00, 0x00, 0xFF);

/// Pixel `(tx, ty)` of block `(ti, tj)`.
pub open spec fn atlas_px(img: Grid<(u8, u8, u8)>, ti: int, tj: int, tx: int, ty: int) -> (u8, u8, u8) {
    img.at(ti * 4 + tx, tj * 4 + ty)
}

/// The nine tile pixels of block `(ti, tj)`, row by row.
pub open spec fn tile_pixels(img: Grid<(u8, u8, u8)>, ti: int, tj: int) -> Seq<(u8, u8, u8)> {
    seq![
        atlas_px(img, ti, tj, 0, 0), atlas_px(img, ti, tj, 1, 0), atlas_px(img, ti, tj, 2, 0),
        atlas_px(img, ti, tj, 0, 1), atlas_px(img, ti, tj, 1, 1), atlas_px(img, ti, tj, 2, 1),
        atlas_px(img, ti, tj, 0, 2), atlas_px(img, ti, tj, 1, 2), atlas_px(img, ti, tj, 2, 2),
    ]
}

/// Weight of block `(ti, tj)`.
pub open spec fn block_weight(img: Grid<(u8, u8, u8)>, ti: int, tj: int) -> u32 {
    (atlas_px(img, ti, tj, 0, 3).0 as int + atlas_px(img, ti, tj, 0, 3).1 as int) as u32
}

/// The variants, as pixels and weight, that block `(ti, tj)` contributes.
pub open spec fn block_entries(img: Grid<(u8, u8, u8)>, ti: int, tj: int) -> Seq<(Seq<(u8, u8, u8)>, u32)> {
    let p = tile_pixels(img, ti, tj);
    let wt = block_weight(img, ti, tj);
    if atlas_px(img, ti, tj, 3, 3) == SKIP_MARKER {
        seq![]
    } else if atlas_px(img, ti, tj, 3, 0) == ROTATE_MARKER {
        seq![(p, wt), (rot_seq(p), wt), (rot_seq(rot_seq(p)), wt), (rot_seq(rot_seq(rot_seq(p))), wt)]
    } else {
        seq![(p, wt)]
    }
}

/// The variants of blocks `(ti, 0) .. (ti, tj)`.
pub open spec fn column_entries(img: Grid<(u8, u8, u8)>, ti: int, tj: int) -> Seq<(Seq<(u8, u8, u8)>, u32)>
    decreases tj,
{
    if tj <= 0 {
        seq![]
    } else {
        column_entries(img, ti, tj - 1) + block_entries(img, ti, tj - 1)
    }
}

/// The variants of the first `ti` block columns, each `ny` blocks tall.
pub open spec fn atlas_entries(img: Grid<(u8, u8, u8)>, ti: int, ny: int) -> Seq<(Seq<(u8, u8, u8)>, u32)>
    decreases ti,
{
    if ti <= 0 {
        seq![]
    } else {
        atlas_entries(img, ti - 1, ny) + column_entries(img, ti - 1, ny)
    }
}

/// `v` holds, in order, one variant per entry of `e`, with the entry's
/// pixels and weight and the constraint of those pixels.
pub open spec fn describes(v: Seq<TileSpec>, e: Seq<(Seq<(u8, u8, u8)>, u32)>) -> bool {
    &&& v.len() == e.len()
    &&& forall|k: int|
        0 <= k < v.len() ==> {
            &&& (#[trigger] v[k]).px_colour@ == e[k].0
            &&& v[k].weight == e[k].1
            &&& v[k].constraint == from_px_spec(v[k].px_colour@)
        }
}

proof fn lemma_describes_concat(
    v1: Seq<TileSpec>,
    e1: Seq<(Seq<(u8, u8, u8)>, u32)>,
    v2: Seq<TileSpec>,
    e2: Seq<(Seq<(u8, u8, u8)>, u32)>,
)
    requires
        describes(v1, e1),
        describes(v2, e2),
    ensures
        describes(v1 + v2, e1 + e2),
{
    assert forall|k: int| 0 <= k < (v1 + v2).len() implies {
        &&& (#[trigger] (v1 + v2)[k]).px_colour@ == (e1 + e2)[k].0
        &&& (v1 + v2)[k].weight == (e1 + e2)[k].1
        &&& (v1 + v2)[k].constraint == from_px_spec((v1 + v2)[k].px_colour@)
    } by {
        if k >= v1.len() {
            assert((v1 + v2)[k] == v2[k - v1.len()]);
        }
    }
}

/// The variant with pixels `px` and weight `weight`.
fn variant(px: [(u8, u8, u8); 9], weight: u32) -> (r: TileSpec)
    ensures
        r.px_colour == px,
        r.weight == weight,
        r.constraint == from_px_spec(px@),
{
    TileSpec { constraint: constraint_from_px_colour(px), px_colour: px, weight }
}

/// The variants that block `(ti, tj)` contributes.
fn block_variants(image: &Grid<(u8, u8, u8)>, ti: usize, tj: usize) -> (r: Vec<TileSpec>)
    requires
        image.wf(),
        ti < image.w / 4,
        tj < image.h / 4,
    ensures
        describes(r@, block_entries(*image, ti as int, tj as int)),
{
    let x = ti * 4;
    let y = tj * 4;
    let mut v: Vec<TileSpec> = Vec::new();
    let skip = image.get(x + 3, y + 3);
    if skip.0 == SKIP_MARKER.0 && skip.1 == SKIP_MARKER.1 && skip.2 == SKIP_MARKER.2 {
        assert(describes(v@, block_entries(*image, ti as int, tj as int)));
        return v;
    }
    let rot = image.get(x + 3, y);
    let wp = image.get(x, y + 3);
    let weight: u32 = wp.0 as u32 + wp.1 as u32;
    let px = [
        image.get(x, y), image.get(x + 1, y), image.get(x + 2, y),
        image.get(x, y + 1), image.get(x + 1, y + 1), image.get(x + 2, y + 1),
        image.get(x, y + 2), image.get(x + 1, y + 2), image.get(x + 2, y + 2),
    ];
    let ghost p = tile_pixels(*image, ti as int, tj as int);
    assert(px@ =~= p);
    v.push(variant(px, weight));
    if rot.0 == ROTATE_MARKER.0 && rot.1 == ROTATE_MARKER.1 && rot.2 == ROTATE_MARKER.2 {
        let p90 = rot_tile(px);
        assert(p90@ =~= rot_seq(p));
        v.push(variant(p90, weight));
        let p180 = rot_tile(p90);
        assert(p180@ =~= rot_seq(rot_seq(p)));
        v.push(variant(p180, weight));
        let p270 = rot_tile(p180);
        assert(p270@ =~= rot_seq(rot_seq(rot_seq(p))));
        v.push(variant(p270, weight));
    }
    v
}

/// The catalog of an atlas: its 4x4 blocks taken column by column, each
/// skipped, taken once, or taken with its three quarter turns, as its
/// marker pixels say.
pub fn make_tileset(image: &Grid<(u8, u8, u8)>) -> (r: TileSet)
    requires
        image.wf(),
    ensures
        describes(r.vec@, atlas_entries(*image, (image.w / 4) as int, (image.h / 4) as int)),
{
    let nx = image.w / 4;
    let ny = image.h / 4;
    let mut vec: Vec<TileSpec> = Vec::new();
    let mut ti: usize = 0;
    while ti < nx
        invariant
            image.wf(),
            nx == image.w / 4,
            ny == image.h / 4,
            ti <= nx,
            describes(vec@, atlas_entries(*image, ti as int, ny as int)),
        decreases nx - ti,
    {
        let mut tj: usize = 0;
        while tj < ny
            invariant
                image.wf(),
                nx == image.w / 4,
                ny == image.h / 4,
                ti < nx,
                tj <= ny,
                describes(
                    vec@,
                    atlas_entries(*image, ti as int, ny as int) + column_entries(*image, ti as int, tj as int),
                ),
            decreases ny - tj,
        {
            let mut block = block_variants(image, ti, tj);
            let ghost before = vec@;
            proof {
                lemma_describes_concat(
                    before,
                    atlas_entries(*image, ti as int, ny as int) + column_entries(*image, ti as int, tj as int),
                    block@,
                    block_entries(*image, ti as int, tj as int),
                );
                assert(atlas_entries(*image, ti as int, ny as int) + column_entries(*image, ti as int, tj as int)
                    + block_entries(*image, ti as int, tj as int) =~= atlas_entries(*image, ti as int, ny as int)
                    + column_entries(*image, ti as int, tj + 1));
            }
            vec.append(&mut block);
            tj = tj + 1;
        }
        ti = ti + 1;
    }
    TileSet { vec }
}

} // verus!
