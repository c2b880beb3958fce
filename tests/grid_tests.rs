use tilegen::grid::{idx_in_dir, Dir, Grid};

#[test]
fn opposite_directions() {
    assert_eq!(Dir::North.opposite(), Dir::South);
    assert_eq!(Dir::South.opposite(), Dir::North);
    assert_eq!(Dir::East.opposite(), Dir::West);
    assert_eq!(Dir::West.opposite(), Dir::East);
}

#[test]
fn steps_in_each_direction() {
    assert_eq!(idx_in_dir(3, 4, Dir::North), (3, 3));
    assert_eq!(idx_in_dir(3, 4, Dir::South), (3, 5));
    assert_eq!(idx_in_dir(3, 4, Dir::West), (2, 4));
    assert_eq!(idx_in_dir(3, 4, Dir::East), (4, 4));
}

#[test]
fn grid_new_get_set() {
    let mut g = Grid::new(3, 2, 7u32);
    assert_eq!(g.elements.len(), 6);
    assert_eq!(g.get(2, 1), 7);
    g.set(2, 1, 9);
    assert_eq!(g.get(2, 1), 9);
    assert_eq!(g.get(1, 1), 7);
    assert_eq!(g.elements[5], 9);
    *g.get_mut(0, 1) = 4;
    assert_eq!(g.elements[3], 4);
}

#[test]
fn grid_offset_mut_in_and_out_of_bounds() {
    let mut g = Grid::new(3, 3, 0u32);
    assert!(g.offset_mut(0, 0, -1, 0).is_none());
    assert!(g.offset_mut(2, 2, 0, 1).is_none());
    if let Some(v) = g.offset_mut(1, 1, 1, -1) {
        *v = 5;
    } else {
        panic!("cell should exist");
    }
    assert_eq!(g.get(2, 0), 5);
}

#[test]
fn grid_neighbour_mut_at_edges() {
    let mut g = Grid::new(2, 2, 0u32);
    assert!(g.neighbour_mut(0, 0, Dir::North).is_none());
    assert!(g.neighbour_mut(0, 0, Dir::West).is_none());
    assert!(g.neighbour_mut(1, 1, Dir::South).is_none());
    assert!(g.neighbour_mut(1, 1, Dir::East).is_none());
    if let Some(v) = g.neighbour_mut(0, 0, Dir::East) {
        *v = 3;
    }
    if let Some(v) = g.neighbour_mut(0, 0, Dir::South) {
        *v = 8;
    }
    assert_eq!(g.get(1, 0), 3);
    assert_eq!(g.get(0, 1), 8);
}
