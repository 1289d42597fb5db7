use tinyset::tiny::Tiny;

fn test_vec(v: Vec<u64>) {
    println!("\ntesting {:?}", v);
    assert_eq!(Tiny::new_sorted_deduped(&v).unwrap().elements(), v);
}

#[test]
fn test_tiny() {
    assert_eq!(Tiny::new_sorted_deduped(&[]), None);
    test_vec(vec![1]);
    test_vec(vec![1024]);
    test_vec(vec![1, 2]);
    test_vec(vec![1, 2, 3]);
    test_vec(vec![1, 2, 3, 4, 5]);
    test_vec(vec![1, 2, 3, 4, 5, 6]);
    test_vec(vec![1, 2, 3, 4, 5, 6, 7]);
}

#[test]
fn tiny_too_many_or_too_wide() {
    assert_eq!(Tiny::new_sorted_deduped(&[1, 2, 3, 4, 5, 6, 7, 8]), None);
    // The second gap of a pair has 21 bits.
    assert!(Tiny::new_sorted_deduped(&[0, 1 << 21]).is_some());
    assert_eq!(Tiny::new_sorted_deduped(&[0, (1 << 21) + 1]), None);
    assert!(Tiny::from_singleton((1 << 61) - 1).is_some());
    assert_eq!(Tiny::from_singleton(1 << 61), None);
}

#[test]
fn tiny_contains_and_insert() {
    let t = Tiny::from_singleton(10).unwrap();
    assert!(t.contains(10));
    assert!(!t.contains(9));
    assert_eq!(t.count(), 1);
    assert_eq!(t.insert(10), Some(t));
    let t2 = t.insert(3).unwrap();
    assert_eq!(t2.elements(), vec![3, 10]);
    let t3 = t2.insert(20).unwrap();
    assert_eq!(t3.elements(), vec![3, 10, 20]);
    let t4 = t3.insert(4).unwrap();
    assert_eq!(t4.elements(), vec![3, 4, 10, 20]);
    assert_eq!(t4.min(), 3);
    assert_eq!(t4.count(), 4);
    for x in [3u64, 4, 10, 20] {
        assert!(t4.contains(x));
    }
    for x in [0u64, 5, 11, 21, 1 << 40] {
        assert!(!t4.contains(x));
    }
    let full = Tiny::new_sorted_deduped(&[1, 2, 3, 4, 5, 6, 7]).unwrap();
    assert_eq!(full.insert(4), Some(full));
    assert_eq!(full.insert(8), None);
}

#[test]
fn tiny_insert_that_does_not_fit() {
    // A single value of 41 bits cannot be the first gap of a pair (40 bits).
    let t = Tiny::from_singleton(1 << 40).unwrap();
    assert_eq!(t.insert(5), None);
    assert_eq!(t.insert(1 << 40), Some(t));
    // A large value after a small one: the second gap of a pair has 21 bits.
    let t = Tiny::from_singleton(1).unwrap();
    assert_eq!(t.insert(1 << 30), None);
    assert_eq!(t.insert(1 << 20).unwrap().elements(), vec![1, 1 << 20]);
}

fn check_tiny_from_vec(slice: Vec<u64>) {
    println!("\n\n\ncheck_tiny_from_vec({:?})", slice);
    let mut t = if let Some(t) = Tiny::from_singleton(slice[0]) {
        t
    } else {
        return;
    };
    let mut count = 1;
    let mut included = Vec::new();
    for x in slice.iter().cloned() {
        assert_eq!(t.elements().contains(&x), t.contains(x));
        let already = t.elements().contains(&x);
        let next = t.insert(x);
        if let Some(tt) = next {
            assert_eq!(tt.count() == t.count(), already);
            if tt.count() != t.count() {
                count += 1;
                included.push(x);
            }
            t = tt;
            assert!(t.elements().contains(&x));
            assert!(t.insert(x).is_some());
            assert_eq!(t.count(), count);
            for xx in t.elements() {
                assert!(t.contains(xx));
                assert!(t.elements().contains(&xx));
            }
        } else {
            assert!(!already);
        }
    }
    for x in included.iter().cloned() {
        assert!(t.contains(x));
    }
}

#[test]
fn check_specific_tinies() {
    check_tiny_from_vec(vec![49, 50, 1]);
    check_tiny_from_vec(vec![1]);
    check_tiny_from_vec(vec![1, 2]);
    check_tiny_from_vec(vec![1000000, 1000030]);
    check_tiny_from_vec(vec![3000027656, 3000030504]);
    check_tiny_from_vec(vec![3127827656, 3125730504]);
    check_tiny_from_vec(vec![3127827656, 3125730504, 1]);
    check_tiny_from_vec(vec![2, 3, 143, 251, 1, 130, 251]);
    check_tiny_from_vec(vec![1, 130, 131, 132, 133, 251]);
}
