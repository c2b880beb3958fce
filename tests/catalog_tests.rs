use tilegen::catalog::{rot_tile, TileHandle, TileSet, TileSpec};
use tilegen::constraint::{constraint_from_px_colour, unconstrained, Constraint};

fn wildcard_tile(weight: u32) -> TileSpec {
    TileSpec { constraint: unconstrained(), px_colour: [(1, 2, 3); 9], weight }
}

fn solid_tile(colour: (u8, u8, u8), weight: u32) -> TileSpec {
    let px = [colour; 9];
    TileSpec { constraint: constraint_from_px_colour(px), px_colour: px, weight }
}

#[test]
fn weighted_choice_exact_handles() {
    let set = TileSet::new(vec![wildcard_tile(1), wildcard_tile(1), wildcard_tile(8)]);
    let c = unconstrained();
    assert_eq!(set.get_tile_satisfying_constraints(c, 0), Some(0));
    assert_eq!(set.get_tile_satisfying_constraints(c, 1), Some(2));
}

#[test]
fn choice_is_repeatable_and_matches() {
    let set = TileSet::new(vec![solid_tile((255, 0, 0), 3), solid_tile((0, 0, 255), 5), solid_tile((255, 0, 0), 2)]);
    let red = constraint_from_px_colour([(255, 0, 0); 9]);
    for seed in [0u32, 1, 2, 69, 1000, u32::MAX] {
        let a = set.get_tile_satisfying_constraints(red, seed);
        let b = set.get_tile_satisfying_constraints(red, seed);
        assert_eq!(a, b);
        let h = a.unwrap();
        assert!(h == 0 || h == 2);
    }
}

#[test]
fn choice_none_when_nothing_matches() {
    let set = TileSet::new(vec![solid_tile((255, 0, 0), 3)]);
    let blue = constraint_from_px_colour([(0, 0, 255); 9]);
    assert_eq!(set.get_tile_satisfying_constraints(blue, 5), None);
    assert_eq!(set.n_tiles_satisfying_constraints(blue), 0);
}

#[test]
fn choice_with_zero_weights_still_picks_a_match() {
    let set = TileSet::new(vec![solid_tile((0, 0, 255), 0), solid_tile((255, 0, 0), 0)]);
    let red = constraint_from_px_colour([(255, 0, 0); 9]);
    assert_eq!(set.get_tile_satisfying_constraints(red, 9), Some(1));
}

#[test]
fn counts_matching_variants() {
    let set = TileSet::new(vec![solid_tile((255, 0, 0), 1), wildcard_tile(1), solid_tile((0, 0, 255), 1)]);
    assert_eq!(set.n_tiles_satisfying_constraints(unconstrained()), 3);
    let red = constraint_from_px_colour([(255, 0, 0); 9]);
    assert_eq!(set.n_tiles_satisfying_constraints(red), 2);
}

#[test]
fn sentinel_handles_resolve_to_marker_tiles() {
    let set = TileSet::new(vec![solid_tile((9, 9, 9), 4)]);
    let failed = set.get_tilespec(TileHandle::Failed);
    assert_eq!(failed.px_colour, [(0, 0, 0); 9]);
    assert_eq!(failed.weight, 0);
    let unset = set.get_tilespec(TileHandle::Unset);
    assert_eq!(unset.px_colour, [(255, 0, 255); 9]);
    assert_eq!(unset.constraint, Constraint { r: 0, g: 0, b: 0, mask: 0 });
    let real = set.get_tilespec(TileHandle::Tile(0));
    assert_eq!(real.px_colour, [(9, 9, 9); 9]);
    assert_eq!(real.weight, 4);
}

#[test]
fn rot_tile_quarter_turn() {
    let mut px = [(0u8, 0u8, 0u8); 9];
    for k in 0..9u8 {
        px[k as usize] = (k, 0, 0);
    }
    let r = rot_tile(px);
    let firsts: Vec<u8> = r.iter().map(|p| p.0).collect();
    assert_eq!(firsts, vec![6, 3, 0, 7, 4, 1, 8, 5, 2]);
    let full = rot_tile(rot_tile(rot_tile(r)));
    assert_eq!(full, px);
}
