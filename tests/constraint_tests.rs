use tilegen::constraint::{
    constraint_add, constraint_flip_lr, constraint_flip_ud, constraint_from_px_colour,
    constraint_match, flip_lr, flip_ud, unconstrained, Constraint,
};
use tilegen::grid::Dir;

#[test]
pub fn test_constraint_match() {
    let unconstrained_all = Constraint { r: 0, g: 0, b: 0, mask: 0xFFFFFFFFFFFFFFFF };
    let unconstrained_bottom = Constraint { r: 0, g: 0, b: 0, mask: 0x0000000000FFFFFF };
    let red_bottom = Constraint { r: 0x0000000000FFFFFF, g: 0, b: 0, mask: 0xFFFFFFFFFF000000 };
    let red_all = Constraint { r: 0xFFFFFFFFFFFFFFFF, g: 0, b: 0, mask: 0 };
    let magenta_bottom = Constraint {
        r: 0x0000000000FFFFFF,
        g: 0,
        b: 0x0000000000FFFFFF,
        mask: 0xFFFFFFFFFF000000,
    };
    assert_eq!(constraint_match(unconstrained_all, red_bottom), true);
    assert_eq!(constraint_match(unconstrained_all, red_all), true);
    assert_eq!(constraint_match(unconstrained_all, magenta_bottom), true);
    assert_eq!(constraint_match(unconstrained_bottom, magenta_bottom), true);
    assert_eq!(constraint_match(red_bottom, red_all), true);
    assert_eq!(constraint_match(red_bottom, magenta_bottom), false);
}

#[test]
fn test_flip_ud() {
    assert_eq!(flip_ud(0xF000000000000000), 0x0000000000F00000);
    assert_eq!(flip_ud(0x0000000000F00000), 0xF000000000000000);
    assert_eq!(flip_ud(0x00000F0000000000), 0x000000000000000F);
    assert_eq!(flip_ud(0x000000000000000F), 0x00000F0000000000);
    assert_eq!(flip_ud(0xFFF0000000F00000), 0xF000000000FFF000);
}

#[test]
fn flip_lr_swaps_left_and_right_columns() {
    assert_eq!(flip_lr(0x0102030405060708), 0x0302010504080706);
    assert_eq!(flip_lr(flip_lr(0x0102030405060708)), 0x0102030405060708);
}

#[test]
fn flip_ud_keeps_middle_row() {
    assert_eq!(flip_ud(0x0102030405060708), 0x0607080405010203);
}

#[test]
fn constraint_flips_apply_to_every_word() {
    let c = Constraint { r: 0x0102030405060708, g: 0xF000000000000000, b: 0, mask: 0x0000000000F00000 };
    let u = constraint_flip_ud(c);
    assert_eq!(u, Constraint { r: 0x0607080405010203, g: 0x0000000000F00000, b: 0, mask: 0xF000000000000000 });
    let l = constraint_flip_lr(c);
    assert_eq!(l.r, 0x0302010504080706);
    assert_eq!(l.b, 0);
}

#[test]
fn match_is_symmetric_and_wildcard_matches_all() {
    let a = Constraint { r: 0x0000000000FFFFFF, g: 0, b: 0, mask: 0xFFFFFFFFFF000000 };
    let b = Constraint { r: 0x0000000000FFFFFF, g: 0, b: 0x0000000000FFFFFF, mask: 0xFFFFFFFFFF000000 };
    let c = Constraint { r: 0x1234, g: 0x5678, b: 0x9ABC, mask: 0 };
    assert_eq!(constraint_match(a, b), constraint_match(b, a));
    assert_eq!(constraint_match(a, c), constraint_match(c, a));
    assert!(constraint_match(unconstrained(), c));
    assert!(constraint_match(c, unconstrained()));
}

#[test]
fn propagate_east_narrows_left_column() {
    let mut t = unconstrained();
    let s = Constraint { r: 0x0102030405060708, g: 0, b: 0, mask: 0 };
    constraint_add(&mut t, s, Dir::East);
    assert_eq!(t.r, 0x0300000500080000);
    assert_eq!(t.mask, 0x00FFFF00FF00FFFF);
    assert_eq!(t.g, 0);
}

#[test]
fn propagate_north_narrows_bottom_row() {
    let mut t = unconstrained();
    let s = Constraint { r: 0x0102030405060708, g: 0, b: 0, mask: 0 };
    constraint_add(&mut t, s, Dir::North);
    assert_eq!(t.r, 0x0000000000010203);
    assert_eq!(t.mask, 0xFFFFFFFFFF000000);
}

#[test]
fn propagated_range_matches_mirrored_source() {
    let mut t = Constraint { r: 0xAAAAAAAAAAAAAAAA, g: 0x5555555555555555, b: 0x1111111111111111, mask: 0 };
    let s = Constraint { r: 0x0102030405060708, g: 0x1112131415161718, b: 0x2122232425262728, mask: 0 };
    constraint_add(&mut t, s, Dir::West);
    let dm: u64 = 0x0000FF00FF0000FF;
    let narrowed = Constraint { r: t.r, g: t.g, b: t.b, mask: t.mask | !dm };
    assert!(constraint_match(narrowed, constraint_flip_lr(s)));
    assert_eq!(t.r & !dm, 0xAAAAAAAAAAAAAAAA & !dm);
}

#[test]
fn from_px_colour_packs_border_bytes() {
    let mut px = [(0u8, 0u8, 0u8); 9];
    for k in 0..9u8 {
        px[k as usize] = (k, 10 + k, 20 + k);
    }
    let c = constraint_from_px_colour(px);
    assert_eq!(c.r, 0x0001020305060708);
    assert_eq!(c.g, 0x0A0B0C0D0F101112);
    assert_eq!(c.b, 0x14151617191A1B1C);
    assert_eq!(c.mask, 0);
}
