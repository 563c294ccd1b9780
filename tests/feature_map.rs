use robot_localization::feature_map::{FeatureMap, Sighting};

#[test]
fn first_sighting_then_seen() {
    let mut m: FeatureMap<(f64, f64)> = FeatureMap::new();
    assert_eq!(m.len(), 0);
    assert_eq!(m.sighting(12), Sighting::New);
    m.insert(12, (1.0, 2.0));
    m.insert(4, (3.0, 4.0));
    assert_eq!(m.sighting(12), Sighting::Seen(0));
    assert_eq!(m.sighting(4), Sighting::Seen(1));
    assert_eq!(m.sighting(5), Sighting::New);
    assert_eq!(m.len(), 2);
}

#[test]
fn update_replaces_only_its_slot() {
    let mut m: FeatureMap<u32> = FeatureMap::new();
    m.insert(1, 10);
    m.insert(2, 20);
    m.update(1, 25);
    assert_eq!(m.get(0), 10);
    assert_eq!(m.get(1), 25);
    assert_eq!(m.sighting(2), Sighting::Seen(1));
}

#[test]
fn cloned_map_is_independent() {
    let mut m: FeatureMap<u32> = FeatureMap::new();
    m.insert(7, 70);
    let mut c = m.clone();
    c.update(0, 71);
    c.insert(8, 80);
    assert_eq!(m.get(0), 70);
    assert_eq!(m.len(), 1);
    assert_eq!(c.get(0), 71);
    assert_eq!(c.len(), 2);
}
