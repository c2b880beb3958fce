use tilegen::krand::{khash, uniform_scaled};

#[test]
fn khash_exact_values() {
    assert_eq!(khash(0), 0x2A2D3405);
    assert_eq!(khash(1), 0x6FF134A0);
    assert_eq!(khash(69), 0x18F7364A);
}

#[test]
fn khash_same_seed_same_value() {
    assert_eq!(khash(12345), khash(12345));
    assert_ne!(khash(1), khash(2));
}

#[test]
fn uniform_scaled_exact_values() {
    assert_eq!(uniform_scaled(0, 10), 1);
    assert_eq!(uniform_scaled(1, 10), 4);
    assert_eq!(uniform_scaled(7, 0), 0);
}
