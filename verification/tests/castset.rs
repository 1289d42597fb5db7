use std::collections::HashSet;
use tinyset::castset::CastSet;
use tinyset::optcastset::OptCastSet;

#[test]
fn castset_it_works() {
    let mut ss: CastSet<usize> = CastSet::new();
    println!("inserting 5");
    ss.insert(5);
    println!("contains 5");
    assert!(ss.contains(&5));
    println!("contains 4");
    assert!(!ss.contains(&4));
    println!("inserting 3");
    ss.insert(3);
    println!("now {:?}", &ss);
    assert!(ss.contains(&3));
    assert!(ss.contains(&5));
    assert_eq!(ss.len(), 2);
    for num in ss.iter() {
        println!("num is {}", num);
        assert!(ss.contains(&num));
    }
    assert!(!ss.remove(&2));
    assert!(ss.remove(&3));
    assert!(!ss.contains(&3));
    assert_eq!(ss.len(), 1);
}

#[test]
fn castset_size_unwasted() {
    println!("small size: {}", std::mem::size_of::<CastSet<usize>>());
    println!(" hash size: {}", std::mem::size_of::<HashSet<usize>>());
    assert!(std::mem::size_of::<CastSet<usize>>() <= 2 * std::mem::size_of::<HashSet<usize>>());
}

#[test]
fn optcastset_it_works() {
    let mut ss: OptCastSet<usize> = OptCastSet::new();
    println!("inserting 5");
    ss.insert(5);
    println!("contains 5");
    assert!(ss.contains(&5));
    println!("contains 4");
    assert!(!ss.contains(&4));
    println!("inserting 3");
    ss.insert(3);
    println!("now {:?}", &ss);
    assert!(ss.contains(&3));
    assert!(ss.contains(&5));
    assert_eq!(ss.len(), 2);
    for num in ss.iter() {
        println!("num is {}", num);
        assert!(ss.contains(&num));
    }
}

#[test]
fn optcastset_size_unwasted() {
    println!("small size: {}", std::mem::size_of::<OptCastSet<usize>>());
    println!(" hash size: {}", std::mem::size_of::<HashSet<usize>>());
    assert!(std::mem::size_of::<OptCastSet<usize>>() <= 2 * std::mem::size_of::<HashSet<usize>>());
}

/// With distances measured the wrong way round, a removal once lost track
/// of a value: after these insertions and the removal of 17, 2 must still
/// be found.
#[test]
fn castset_remove_keeps_others() {
    let mut ss: CastSet<usize> = CastSet::new();
    for x in [13usize, 10, 17, 19, 1, 2] {
        assert!(ss.insert(x));
    }
    assert!(ss.remove(&17));
    for x in [13usize, 10, 19, 1, 2] {
        assert!(ss.contains(&x));
    }
    assert!(!ss.contains(&17));
    assert_eq!(ss.len(), 5);
}

#[test]
fn castset_grows() {
    let mut ss: CastSet<u32> = CastSet::with_capacity(2);
    for x in 0u32..1000 {
        assert!(ss.insert(x * 7));
        assert!(!ss.insert(x * 7));
    }
    assert_eq!(ss.len(), 1000);
    for x in 0u32..7000 {
        assert_eq!(ss.contains(&x), x % 7 == 0);
    }
    for x in 0u32..500 {
        assert!(ss.remove(&(x * 14)));
    }
    assert_eq!(ss.len(), 500);
    let mut all = ss.drain();
    all.sort();
    assert_eq!(all.len(), 500);
    assert_eq!(ss.len(), 0);
    assert_eq!(all[0], 7);
}

#[test]
fn optcastset_grows() {
    let mut ss: OptCastSet<u64> = OptCastSet::new();
    for x in 0u64..300 {
        assert!(ss.insert(x * 3 + 1));
    }
    assert!(!ss.insert(4));
    assert_eq!(ss.len(), 300);
    for x in 0u64..900 {
        assert_eq!(ss.contains(&x), x % 3 == 1);
    }
    assert_eq!(ss.iter().len(), 300);
}
