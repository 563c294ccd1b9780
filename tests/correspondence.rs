use robot_localization::correspondence::LandmarkTable;

#[test]
fn table_maps_identifiers_to_slots() {
    let t = LandmarkTable::new(&vec![7, 3, 9]);
    assert_eq!(t.slot(7), Some(0));
    assert_eq!(t.slot(3), Some(1));
    assert_eq!(t.slot(9), Some(2));
    assert_eq!(t.slot(5), None);
    assert!(t.contains(9));
    assert!(!t.contains(4));
}

#[test]
fn repeated_identifier_keeps_last_slot() {
    let t = LandmarkTable::new(&vec![4, 8, 4]);
    assert_eq!(t.slot(4), Some(2));
    assert_eq!(t.slot(8), Some(1));
}

#[test]
fn known_corrections_skip_unknown_tags() {
    let t = LandmarkTable::new(&vec![7, 3, 9]);
    let ms = vec![(3, 1.5), (5, 2.5), (9, -1.0), (3, 0.25)];
    assert_eq!(t.known_corrections(&ms), vec![(1, 1.5), (2, -1.0), (1, 0.25)]);
    assert_eq!(t.known_corrections(&Vec::<(u32, f64)>::new()), vec![]);
}

#[test]
fn unknown_tag_same_as_omitting_it() {
    let t = LandmarkTable::new(&vec![1, 2]);
    let without = vec![(1, [0.5, 1.0]), (2, [2.0, 3.0])];
    let with = vec![(1, [0.5, 1.0]), (42, [9.0, 9.0]), (2, [2.0, 3.0])];
    assert_eq!(t.known_corrections(&with), t.known_corrections(&without));
    let empty = LandmarkTable::new(&vec![]);
    assert_eq!(empty.known_corrections(&with), vec![]);
}
