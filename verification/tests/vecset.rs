use std::collections::HashSet;
use tinyset::vecset::VecSet;

#[test]
fn vecset_it_works() {
    let mut ss: VecSet<usize> = VecSet::new();
    ss.insert(5);
    assert!(ss.contains(&5));
    assert!(!ss.contains(&4));
    ss.insert(3);
    println!("now {:?}", &ss);
    assert!(ss.contains(&3));
    assert!(ss.contains(&5));
    assert!(ss.len() == 2);
    for num in ss.iter() {
        assert!(ss.contains(num));
    }
}

#[test]
fn vecset_size_unwasted() {
    println!("small size: {}", std::mem::size_of::<VecSet<usize>>());
    println!(" hash size: {}", std::mem::size_of::<HashSet<usize>>());
    assert!(std::mem::size_of::<VecSet<usize>>() <= 2 * std::mem::size_of::<HashSet<usize>>());
}

#[test]
fn vecset_remove() {
    let mut ss: VecSet<u8> = VecSet::new();
    for x in [1u8, 2, 3, 2, 1] {
        ss.insert(x);
    }
    assert_eq!(ss.len(), 3);
    assert!(ss.remove(&1));
    assert!(!ss.remove(&1));
    assert!(!ss.contains(&1));
    assert!(ss.contains(&2) && ss.contains(&3));
    assert_eq!(ss.len(), 2);
}

#[test]
fn vecset_order_and_non_copy() {
    let mut ss: VecSet<String> = VecSet::new();
    for w in ["a", "b", "c", "d"] {
        assert!(ss.insert(w.to_string()));
    }
    assert!(!ss.insert("b".to_string()));
    let order: Vec<&String> = ss.iter();
    assert_eq!(order, vec!["a", "b", "c", "d"]);
    // Removing moves the last element into the freed place.
    assert!(ss.remove(&"b".to_string()));
    let order: Vec<&String> = ss.iter();
    assert_eq!(order, vec!["a", "d", "c"]);
}
