use tilegen::atlas::make_tileset;
use tilegen::catalog::rot_tile;
use tilegen::constraint::constraint_from_px_colour;
use tilegen::grid::Grid;

fn paint_block(img: &mut Grid<(u8, u8, u8)>, bi: usize, bj: usize, base: u8) {
    for ty in 0..3 {
        for tx in 0..3 {
            img.set(bi * 4 + tx, bj * 4 + ty, (base + (ty * 3 + tx) as u8, 0, 0));
        }
    }
}

#[test]
fn atlas_blocks_skip_plain_and_rotated() {
    let mut img = Grid::new(12, 4, (9u8, 9u8, 9u8));
    paint_block(&mut img, 0, 0, 10);
    img.set(0, 3, (3, 4, 200));
    paint_block(&mut img, 1, 0, 40);
    img.set(7, 3, (255, 0, 0));
    paint_block(&mut img, 2, 0, 70);
    img.set(11, 0, (0, 0, 255));
    img.set(8, 3, (1, 1, 0));
    let set = make_tileset(&img);
    assert_eq!(set.vec.len(), 5);
    let first = set.vec[0];
    assert_eq!(first.weight, 7);
    assert_eq!(first.px_colour[0], (10, 0, 0));
    assert_eq!(first.px_colour[8], (18, 0, 0));
    assert_eq!(first.constraint, constraint_from_px_colour(first.px_colour));
    let third = set.vec[1].px_colour;
    assert_eq!(third[4], (74, 0, 0));
    assert_eq!(set.vec[1].weight, 2);
    assert_eq!(set.vec[2].px_colour, rot_tile(third));
    assert_eq!(set.vec[3].px_colour, rot_tile(rot_tile(third)));
    assert_eq!(set.vec[4].px_colour, rot_tile(rot_tile(rot_tile(third))));
}

#[test]
fn atlas_too_small_for_a_block_is_empty() {
    let img = Grid::new(3, 8, (0u8, 0u8, 0u8));
    assert_eq!(make_tileset(&img).vec.len(), 0);
}
