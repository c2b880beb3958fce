use tilegen::frontier::Frontier;

#[test]
fn latest_upsert_decides_order() {
    let mut f = Frontier::new(3, 2);
    f.upsert(5, (0, 0));
    f.upsert(3, (2, 1));
    f.upsert(9, (2, 1));
    f.upsert(5, (1, 0));
    assert_eq!(f.extract_min(), Some((0, 0)));
    assert_eq!(f.extract_min(), Some((1, 0)));
    assert_eq!(f.extract_min(), Some((2, 1)));
    assert_eq!(f.extract_min(), None);
}

#[test]
fn lowered_priority_is_taken_first() {
    let mut f = Frontier::new(2, 2);
    f.upsert(4, (0, 0));
    f.upsert(6, (1, 1));
    f.upsert(2, (1, 1));
    assert_eq!(f.extract_min(), Some((1, 1)));
    assert_eq!(f.extract_min(), Some((0, 0)));
    assert_eq!(f.extract_min(), None);
}

#[test]
fn ties_go_in_row_major_order() {
    let mut f = Frontier::new(3, 3);
    f.upsert(1, (0, 2));
    f.upsert(1, (2, 0));
    f.upsert(1, (1, 0));
    assert_eq!(f.extract_min(), Some((1, 0)));
    assert_eq!(f.extract_min(), Some((2, 0)));
    assert_eq!(f.extract_min(), Some((0, 2)));
}

#[test]
fn empty_frontier_yields_none() {
    let mut f = Frontier::new(4, 4);
    assert_eq!(f.extract_min(), None);
}
