use d3rs::data_collections::{CategorisedValue, SegmentedValue};

#[test]
fn segments_add_up() {
    let mut value = SegmentedValue::<u32>::default();
    assert!(value.is_empty());
    value.add(0, 5);
    value.add(2, 3);
    value.add(0, 1);
    assert_eq!(value.value_of_segment(0), Some(6));
    assert_eq!(value.value_of_segment(1), None);
    assert_eq!(value.value_of_segment(2), Some(3));
    assert_eq!(value.len(), 2);
    assert_eq!(value.height(), 9);
    assert!(!value.is_empty());
    let pairs: Vec<(usize, u32)> = value.values().map(|(k, v)| (*k, *v)).collect();
    assert_eq!(pairs, vec![(0, 6), (2, 3)]);
}

#[test]
fn segments_in_index_order() {
    let mut value = SegmentedValue::<i64>::default();
    value.add(9, -4);
    value.add(1, 10);
    value.add(5, 2);
    let keys: Vec<usize> = value.values().map(|(k, _)| *k).collect();
    assert_eq!(keys, vec![1, 5, 9]);
    assert_eq!(value.height(), 8);
}

#[test]
fn categorised_value_holds_its_parts() {
    let v = CategorisedValue::new(1977, "Cassette", 36_900_000);
    assert_eq!(v.primary_key, 1977);
    assert_eq!(v.secondary_key, "Cassette");
    assert_eq!(v.value, 36_900_000);
}
