use tilegen::catalog::{TileHandle, TileSet, TileSpec};
use tilegen::constraint::{constraint_from_px_colour, unconstrained, Constraint};
use tilegen::frontier::Frontier;
use tilegen::generate::{cell_seed, generate_tiling, Generator};
use tilegen::grid::Grid;

fn wildcard_set() -> TileSet {
    TileSet::new(vec![TileSpec { constraint: unconstrained(), px_colour: [(7, 7, 7); 9], weight: 1 }])
}

fn never_adjacent_set() -> TileSet {
    let red = (255u8, 0u8, 0u8);
    let blue = (0u8, 0u8, 255u8);
    let a = [red, (1, 1, 1), blue, red, (1, 1, 1), blue, red, (1, 1, 1), blue];
    let b = [red, (2, 2, 2), blue, red, (3, 3, 3), blue, red, (2, 2, 2), blue];
    TileSet::new(vec![
        TileSpec { constraint: constraint_from_px_colour(a), px_colour: a, weight: 1 },
        TileSpec { constraint: constraint_from_px_colour(b), px_colour: b, weight: 1 },
    ])
}

fn never_stacked_set() -> TileSet {
    let red = (255u8, 0u8, 0u8);
    let blue = (0u8, 0u8, 255u8);
    let a = [red, red, red, (1, 1, 1), (1, 1, 1), (1, 1, 1), blue, blue, blue];
    let b = [red, red, red, (2, 2, 2), (3, 3, 3), (2, 2, 2), blue, blue, blue];
    TileSet::new(vec![
        TileSpec { constraint: constraint_from_px_colour(a), px_colour: a, weight: 1 },
        TileSpec { constraint: constraint_from_px_colour(b), px_colour: b, weight: 2 },
    ])
}

#[test]
fn incompatible_stack_terminates_with_failure() {
    for seed in [0u32, 3, 72] {
        let t = generate_tiling(&never_stacked_set(), 1, 2, seed);
        assert_eq!(t.handles.len(), 2);
        assert!(t.handles.iter().any(|h| *h == TileHandle::Failed));
        assert!(t.place_failures >= 1);
    }
}

#[test]
fn empty_catalog_fails_every_cell() {
    let t = generate_tiling(&TileSet::new(vec![]), 3, 2, 11);
    assert_eq!(t.handles, vec![TileHandle::Failed; 6]);
    assert!(t.place_failures >= 6);
}

#[test]
fn cell_seed_exact_value() {
    assert_eq!(cell_seed(69, 1, 2, 3), 0x4EEA04E3);
    assert_eq!(cell_seed(0, 0, 0, 0), 0);
}

#[test]
fn single_cell_single_wildcard_variant() {
    for seed in [0u32, 1, 69, 72, u32::MAX] {
        let t = generate_tiling(&wildcard_set(), 1, 1, seed);
        assert_eq!(t.handles, vec![TileHandle::Tile(0)]);
        assert_eq!(t.small_rollbacks, 0);
        assert_eq!(t.med_rollbacks, 0);
        assert_eq!(t.big_rollbacks, 0);
        assert_eq!(t.place_failures, 0);
    }
}

#[test]
fn incompatible_pair_terminates_with_failure() {
    for seed in [0u32, 1, 69] {
        let t = generate_tiling(&never_adjacent_set(), 2, 1, seed);
        assert_eq!(t.handles.len(), 2);
        assert!(t.handles.iter().any(|h| *h == TileHandle::Failed));
        assert!(t.handles.iter().all(|h| *h != TileHandle::Unset));
        assert!(t.place_failures >= 1);
        assert_eq!(t.big_rollbacks, 0);
    }
}

#[test]
fn identical_runs_are_identical() {
    let set = never_adjacent_set();
    let a = generate_tiling(&set, 3, 2, 72);
    let b = generate_tiling(&set, 3, 2, 72);
    assert_eq!(a.handles, b.handles);
    assert_eq!(a.small_rollbacks, b.small_rollbacks);
    assert_eq!(a.med_rollbacks, b.med_rollbacks);
    assert_eq!(a.big_rollbacks, b.big_rollbacks);
    assert_eq!(a.place_failures, b.place_failures);
    let w = wildcard_set();
    let c = generate_tiling(&w, 4, 3, 5);
    let d = generate_tiling(&w, 4, 3, 5);
    assert_eq!(c.handles, d.handles);
}

#[test]
fn compatible_catalog_fills_grid() {
    let t = generate_tiling(&wildcard_set(), 4, 3, 9);
    assert_eq!(t.handles.len(), 12);
    assert!(t.handles.iter().all(|h| *h == TileHandle::Tile(0)));
    assert_eq!(t.small_rollbacks + t.med_rollbacks + t.place_failures, 0);
}

#[test]
fn radius_one_rollback_touches_only_its_square() {
    let set = wildcard_set();
    let x = Constraint { r: 0x1111111111111111, g: 0x2222222222222222, b: 0, mask: 0 };
    let mut gen = Generator {
        cons: Grid::new(5, 5, x),
        gens: Grid::new(5, 5, 0u32),
        out: Grid::new(5, 5, TileHandle::Tile(0)),
        frontier: Frontier::new(5, 5),
    };
    gen.out.set(2, 2, TileHandle::Unset);
    gen.roll_back(&set, 2, 2, 1);
    assert_eq!(gen.cons.get(2, 2), unconstrained());
    assert_eq!(gen.gens.get(2, 2), 1);
    assert_eq!(gen.out.get(2, 2), TileHandle::Unset);
    let west: u64 = 0x0000FF00FF0000FF;
    let c = gen.cons.get(1, 2);
    assert_eq!(c.mask, west);
    assert_eq!(c.r, 0x1111111111111111 & !west);
    assert_eq!(gen.gens.get(1, 2), 1);
    assert_eq!(gen.out.get(1, 2), TileHandle::Unset);
    assert_eq!(gen.cons.get(2, 1).mask, 0x0000000000FFFFFF);
    assert_eq!(gen.cons.get(2, 3).mask, 0xFFFFFF0000000000);
    assert_eq!(gen.cons.get(3, 2).mask, 0xFF0000FF00FF0000);
    for (i, j) in [(1usize, 1usize), (3, 3), (1, 3), (3, 1), (0, 0), (4, 2), (2, 0), (0, 4)] {
        assert_eq!(gen.cons.get(i, j), x);
        assert_eq!(gen.gens.get(i, j), 0);
        assert_eq!(gen.out.get(i, j), TileHandle::Tile(0));
    }
    let mut popped = 0;
    while gen.frontier.extract_min().is_some() {
        popped += 1;
    }
    assert_eq!(popped, 5);
}
