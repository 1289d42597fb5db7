use tinyset::setu64::{
    compute_array_bits, log_2, mask, num_bits, p_insert, p_lookfor, p_poverty, p_remove, split_u64,
    unsplit_u64, LookedUp, SetU64,
};

fn test_insert_remove(x: u64, a: &mut [u64]) {
    println!("test_insert_remove({}, {:?})", x, a);
    let v: Vec<u64> = a.iter().cloned().collect();
    assert!(!p_remove(x, a, 0));
    assert!(!a.contains(&x)); // otherwise the test won't work right.
    assert!(!p_lookfor(x, a, 0).key_found());
    a[p_insert(x, a, 0)] = x;
    assert!(a.contains(&x));
    println!("  after insertion of {} a is {:?}", x, a);
    assert!(p_lookfor(x, a, 0).key_found());
    assert_eq!(x, a[p_lookfor(x, a, 0).unwrap()]);
    assert!(p_remove(x, a, 0));
    println!("  after remove of {} a is {:?}", x, a);
    assert_eq!(a, &v[..]);
}

#[test]
fn test_log_2() {
    assert_eq!(log_2(0), 1);
    assert_eq!(log_2(1), 1);
    assert_eq!(log_2(7), 3);
    assert_eq!(log_2(8), 4);
}

#[test]
fn setu64_test_insert() {
    let mut a = [0, 0, 0, 0];
    assert_eq!(2, p_insert(2, &mut a, 0));
    assert_eq!(&a, &[0, 0, 0, 0]);
    for i in 0..10 {
        assert_eq!(0, a[p_insert(i, &mut a, 0)]);
    }

    let mut a = [0, 0, 6, 0];
    assert_eq!(3, p_insert(2, &mut a, 0));
    assert_eq!(&a, &[0, 0, 6, 0]);
    for i in 0..10 {
        assert!([0, i].contains(&a[p_insert(i, &mut a, 0)]));
    }

    let mut a = [0, 0, 6, 3];
    assert_eq!(3, p_insert(2, &mut a, 0));
    assert_eq!(&a, &[3, 0, 6, 0]);
    for i in 0..10 {
        assert!([0, i].contains(&a[p_insert(i, &mut a, 0)]));
    }
}

#[test]
fn setu64_test_lookfor() {
    assert_eq!(LookedUp::NeedInsert, p_lookfor(5, &[3, 1, 2], 0));
    assert_eq!(LookedUp::NeedInsert, p_lookfor(5, &[3, 0, 2], 0));
    assert_eq!(LookedUp::KeyFound(3), p_lookfor(7, &[0, 0, 0, 7], 0));
}

#[test]
fn test_remove() {
    let mut a = [0, 0, 2];
    a[p_insert(5, &mut a, 0)] = 5;
    assert_eq!(&[5, 0, 2], &a);
    p_remove(2, &mut a, 0);
    println!("after removal {:?}", a);
    assert!(p_lookfor(5, &a, 0).key_found());
    assert_eq!(&[0, 0, 5], &a);

    test_insert_remove(7, &mut [0, 0, 0, 0]);

    test_insert_remove(2, &mut [0, 1, 5, 0]);

    test_insert_remove(5, &mut [0, 0, 2]);
}

#[test]
fn setu64_lookfor_empty_spot() {
    assert_eq!(LookedUp::EmptySpot(1), p_lookfor(4, &[0, 0, 0], 0));
    assert_eq!(LookedUp::EmptySpot(2), p_lookfor(4, &[0, 1, 0], 0));
    assert!(LookedUp::EmptySpot(2).empty_spot());
    assert!(!LookedUp::NeedInsert.empty_spot());
    assert_eq!(LookedUp::KeyFound(4).unwrap(), 4);
}

#[test]
fn setu64_offset_keys() {
    // Words hold a key above the low four bits; the low bits are a bitmap.
    let mut a = [0u64; 5];
    for key in [3u64, 8, 13, 4] {
        let idx = p_insert(key, &mut a, 4);
        assert_eq!(a[idx], 0);
        a[idx] = (key << 4) | 1;
    }
    for key in [3u64, 8, 13, 4] {
        match p_lookfor(key, &a, 4) {
            LookedUp::KeyFound(i) => assert_eq!(a[i] >> 4, key),
            other => panic!("key {} gave {:?}", key, other),
        }
    }
    assert!(!p_lookfor(5, &a, 4).key_found());
    assert!(p_remove(8, &mut a, 4));
    assert!(!p_remove(8, &mut a, 4));
    assert!(!p_lookfor(8, &a, 4).key_found());
    for key in [3u64, 13, 4] {
        assert!(p_lookfor(key, &a, 4).key_found());
    }
}

#[test]
fn setu64_helpers() {
    assert_eq!(p_poverty(7, 1, 4), 2);
    assert_eq!(p_poverty(5, 1, 4), 0);
    assert_eq!(p_poverty(6, 1, 4), 3);
    assert_eq!(mask(0), 0);
    assert_eq!(mask(5), 31);
    assert_eq!(mask(63), u64::MAX >> 1);
    assert_eq!(num_bits::<u64>(), 64);
    assert_eq!(num_bits::<u16>(), 16);
    assert_eq!(compute_array_bits(0), 62);
    assert_eq!(compute_array_bits(1), 62);
    assert_eq!(compute_array_bits(2), 62);
    assert_eq!(compute_array_bits(1000), 54);
    assert_eq!(compute_array_bits(1 << 62), 0);
    assert_eq!(compute_array_bits((1 << 62) - 1), 2);
    assert_eq!(split_u64(1000, 54), (18, 28));
    assert_eq!(split_u64(1000, 0), (1000, 0));
    assert_eq!(unsplit_u64(18, 28, 54), 1000);
    assert_eq!(unsplit_u64(1000, 0, 0), 1000);
    assert_eq!(log_2(u64::MAX), 64);
    assert_eq!(log_2(1 << 40), 41);
}

#[test]
fn just_clone() {
    let mut x = SetU64::with_capacity_and_max(100, 1000000);
    x.insert(100);
    x.insert(1000);
    let y = x.clone();
    assert_eq!(x.len(), y.len());
    assert_eq!(x.len(), x.iter().len());
    assert_eq!(y.len(), y.clone().iter().len());
}

fn test_a_collect(v: Vec<u64>) {
    let s = SetU64::from_items(v.clone());
    let vv: Vec<u64> = s.iter();
    let ss = SetU64::from_items(vv.clone());
    let vvv: Vec<u64> = ss.iter();
    assert_eq!(vv, vvv);
}

#[test]
fn test_collect() {
    test_a_collect(vec![]);
    test_a_collect(vec![0]);
    test_a_collect(vec![0, 1 << 60]);
    test_a_collect(vec![0, 1 << 30, 1 << 60]);
    test_a_collect((0..1024).collect());
}

fn check_set(elems: &[u64]) {
    println!("\n\ncheck_set {:?}\n", elems);
    let mut s = SetU64::default();
    let mut count = 0;
    for x in elems.iter().cloned() {
        let was_here = s.contains(x);
        let changed_something = s.insert(x);
        if changed_something {
            count += 1;
        }
        assert_eq!(!was_here, changed_something);
        assert!(s.contains(x));
        assert_eq!(s.len(), count);
        assert_eq!(s.iter().len(), count);
    }
    assert!(elems.len() >= s.len());
    assert_eq!(elems.iter().cloned().min(), s.iter().into_iter().min());
    assert_eq!(s.iter().len(), s.len());
    for x in s.iter() {
        assert!(elems.contains(&x));
    }
    for x in elems.iter().cloned() {
        assert!(s.contains(x));
    }
    for x in elems.iter().cloned() {
        s.remove(x);
    }
    for x in elems.iter().cloned() {
        assert!(!s.contains(x));
    }
    assert_eq!(s.len(), 0);
}

#[test]
fn check_sets() {
    check_set(&[
        2020521336280004635,
        17919264261434241137,
        2238430514865874295,
        6993057942733118921,
        151320868361192487,
    ]);
    check_set(&[1121917459475225854, 2080724155257001326, 4615424731220156355, 0]);
    check_set(&[12891372448885225674, 7003397808690412416, 129282323776365774, 9248739364838008708]);
    check_set(&[]);
    check_set(&[10]);
    check_set(&[1024]);
    check_set(&[1]);
    check_set(&[0]);
    check_set(&[0, 1]);
    check_set(&[0, 1]);
    check_set(&[0, 1, 2, 3]);
    check_set(&[0, 1, 0, 2, 3]);
    check_set(&[0, 1, 2, 3, 4, 5, 6, 7, 8, 9, 10]);
    check_set(&[0, 1, 2, 3, 4, 5, 6, 7 << 30, 8, 9, 10]);
    check_set(&[0, 2097153, 2, 2305843009213693952]);
    check_set(&[0, 1024]);
    check_set(&[0, 1024, 1 << 61]);
    check_set(&[0, 1024, 1 << 63]);
}

#[test]
fn check_specific_sets() {
    check_set(&[
        2847318633310315892,
        63058418965769059,
        2042910419467651321,
        1999840121589118486,
        16041957357413958548,
        3644150915196633528,
        11391567487966916668,
        2789376712080388913,
        8889702475440805467,
        16888113214698725429,
        1249634136756270040,
        15461625332902556004,
        8159161795026448273,
        12009229139422836646,
        15912096166435473807,
    ]);
}

#[test]
fn setu64_every_storage() {
    // A few small values stay packed.
    let mut s = SetU64::new();
    for x in [3u64, 5, 9] {
        assert!(s.insert(x));
    }
    assert_eq!(s.capacity(), 0);
    // Many dense values go to a bitset.
    for x in 0..300u64 {
        s.insert(x);
    }
    assert_eq!(s.len(), 300);
    // A far value makes the bitset sparse or longer, and the set keeps its values.
    s.insert(1 << 40);
    assert_eq!(s.len(), 301);
    assert!(s.contains(1 << 40) && s.contains(299) && !s.contains(300));
    // A value needing all 64 bits.
    s.insert(u64::MAX);
    s.insert(0);
    assert_eq!(s.len(), 302);
    assert!(s.contains(u64::MAX) && s.contains(0));
    let mut items = s.drain();
    items.sort();
    assert_eq!(items.len(), 302);
    assert_eq!(items[0], 0);
    assert_eq!(items[301], u64::MAX);
    assert_eq!(s.len(), 0);
}

#[test]
fn setu64_remove_absent_from_full_table() {
    // One value too wide to pack gives a table of values.
    let mut s = SetU64::new();
    assert!(s.insert(1 << 62));
    assert!(!s.remove(5));
    assert!(s.contains(1 << 62));
    assert!(s.remove(1 << 62));
    assert!(!s.contains(1 << 62));
    assert_eq!(s.len(), 0);
}

#[test]
fn setu64_marker_values() {
    // Values of a table of large values, among them the numbers that
    // could serve as its marker.
    let mut s = SetU64::from_items(vec![1 << 63, 0]);
    for x in 60..200u64 {
        s.insert(x);
    }
    s.insert(0);
    assert_eq!(s.len(), 142);
    for x in 60..200u64 {
        assert!(s.contains(x));
    }
    assert!(s.contains(0) && s.contains(1 << 63) && !s.contains(200));
    for x in 60..200u64 {
        assert!(s.remove(x));
    }
    assert_eq!(s.iter().len(), 2);
}

#[test]
fn setu64_tiny_remove() {
    let mut s = SetU64::from_items(vec![7, 1, 3]);
    assert_eq!(s.capacity(), 0);
    assert!(s.remove(3));
    assert!(!s.remove(3));
    let mut v = s.iter();
    v.sort();
    assert_eq!(v, vec![1, 7]);
    assert!(s.remove(1));
    assert!(s.remove(7));
    assert_eq!(s.len(), 0);
}

#[test]
fn setu64_bitmaps_narrow_for_large_value() {
    // Values that share words of a table of bitmaps, then one that needs
    // narrower bitmaps.
    let mut s = SetU64::new();
    let vals: Vec<u64> = (0..40u64).map(|i| (1 << 30) + 5 * i).collect();
    for &x in &vals {
        s.insert(x);
    }
    s.insert(1 << 58);
    for &x in &vals {
        assert!(s.contains(x));
    }
    assert!(s.contains(1 << 58));
    assert_eq!(s.len(), 41);
}

#[test]
fn setu64_with_capacity_and_bits_kinds() {
    // A table of bitmaps 10 wide.
    let mut h = SetU64::with_capacity_and_bits(4, 10);
    assert_eq!(h.capacity(), 4);
    for x in 0..50u64 {
        h.insert(x * 3);
    }
    assert_eq!(h.len(), 50);
    assert!(h.contains(147) && !h.contains(148));
    // A value too large for 10-bit bitmaps.
    h.insert(1 << 62);
    assert!(h.contains(1 << 62) && h.contains(0));
    assert_eq!(h.len(), 51);
    // A bitset of two words.
    let mut d = SetU64::with_capacity_and_bits(2, 64);
    d.insert(127);
    assert_eq!(d.capacity(), 2);
    d.insert(128);
    assert!(d.contains(127) && d.contains(128));
    assert_eq!(d.len(), 2);
    // A table of values whose marker is 100: inserting 100 moves it.
    let mut b = SetU64::with_capacity_and_bits(8, 100);
    b.insert(0);
    b.insert(100);
    b.insert(101);
    assert!(b.contains(0) && b.contains(100) && b.contains(101));
    assert_eq!(b.len(), 3);
    assert!(b.remove(0));
    assert!(!b.contains(0) && b.contains(100));
    // No slots gives no storage.
    let e = SetU64::with_capacity_and_bits(0, 10);
    assert_eq!(e.capacity(), 0);
    assert_eq!(e.len(), 0);
}
