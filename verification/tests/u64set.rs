use std::collections::{HashMap, HashSet};
use tinyset::tinyset::HasInvalid;
use tinyset::fits::Fits64;
use tinyset::u64map::{Map6464, U64Map};
use tinyset::u64set::{Map64, Set64, U64Set};

#[test]
fn u64set_it_works() {
    let mut ss = Set64::<u64>::new();
    println!("inserting 5");
    ss.insert(5);
    println!("contains 5");
    assert!(ss.contains(&5));
    println!("contains 4");
    assert!(!ss.contains(&4));
    println!("inserting 3");
    ss.insert(3);
    println!("now {:?}", &ss);
    assert!(ss.contains(&3));
    assert!(ss.contains(&5));
    assert_eq!(ss.len(), 2);
    for num in ss.iter() {
        println!("num is {}", num);
        assert!(ss.contains(&num));
    }
    assert!(!ss.remove(&2));
    assert!(ss.remove(&3));
    assert!(!ss.contains(&3));
    assert_eq!(ss.len(), 1);
}

#[test]
fn u64set_size_unwasted() {
    println!("box size: {}", std::mem::size_of::<Box<[u64]>>());
    println!("small size: {}", std::mem::size_of::<U64Map>());
    println!(" hash size: {}", std::mem::size_of::<HashMap<u64, u64>>());
    assert!(std::mem::size_of::<U64Map>() <= 2 * std::mem::size_of::<HashMap<u64, u64>>());
    assert!(std::mem::size_of::<U64Map>() <= 48);

    println!("box size: {}", std::mem::size_of::<Box<[u64]>>());
    println!("small size: {}", std::mem::size_of::<Map6464<u64, u64>>());
    println!(" hash size: {}", std::mem::size_of::<HashMap<u64, u64>>());
    assert!(std::mem::size_of::<Map6464<u64, u64>>() <= 2 * std::mem::size_of::<HashMap<u64, u64>>());
    assert!(std::mem::size_of::<Map6464<u64, u64>>() <= 72);

    println!("small size: {}", std::mem::size_of::<U64Set>());
    println!(" hash size: {}", std::mem::size_of::<HashSet<u64>>());
    assert!(std::mem::size_of::<U64Set>() <= 2 * std::mem::size_of::<HashSet<u64>>());
    assert!(std::mem::size_of::<U64Set>() <= 24);

    println!("\nsmall size: {}", std::mem::size_of::<Map64<u64, u64>>());
    println!(" hash size: {}", std::mem::size_of::<HashMap<u64, u64>>());
    assert!(std::mem::size_of::<Map64<u64, u64>>() <= 2 * std::mem::size_of::<HashMap<u64, u64>>());
    assert!(std::mem::size_of::<Map64<u64, u64>>() <= 48);
}

#[test]
fn u64set_test_matches() {
    let mut steps: Vec<Result<u64, u64>> = vec![Err(8), Ok(0), Ok(16), Ok(1), Ok(8)];
    let mut set = U64Set::with_capacity(1);
    let mut refset = HashSet::<u64>::new();
    loop {
        match steps.pop() {
            Some(Ok(v)) => {
                println!("\ninserting {}", v);
                set.insert(v);
                refset.insert(v);
            }
            Some(Err(v)) => {
                println!("\nremoving {}", v);
                set.remove(&v);
                refset.remove(&v);
            }
            None => return,
        }
        println!("set: {:?}", set);
        println!("refset: {:?}", refset);
        assert_eq!(set.len(), refset.len());
        for i in 0..255 {
            if set.contains(&i).is_some() != refset.contains(&i) {
                println!("trouble at {}", i);
                assert_eq!(set.contains(&i).is_some(), refset.contains(&i));
            }
        }
    }
}

#[test]
fn u64set_specific_bigint() {
    let mut steps: Vec<Result<(u64, u8), (u64, u8)>> =
        vec![Ok((84, 30)), Ok((0, 0)), Ok((0, 0)), Ok((1, 0)), Ok((1, 1)), Ok((1, 2)), Ok((2, 15))];
    let mut set = U64Set::with_capacity(1);
    let mut refset = HashSet::<u64>::new();
    loop {
        match steps.pop() {
            Some(Ok((v, shift))) => {
                let v = v << (shift & 31);
                println!(" adding {}", v);
                println!("compare {}", u32::invalid());
                set.insert(v);
                refset.insert(v);
            }
            Some(Err((v, shift))) => {
                let v = v << (shift & 31);
                println!("removing {}", v);
                set.remove(&v);
                refset.remove(&v);
            }
            None => return,
        }
        println!("refset: {:?}", &refset);
        println!("set: {:?}", &set);
        for x in set.iter() {
            println!(" {}", x);
        }
        assert_eq!(set.len(), refset.len());
        for i in 0..2550 {
            if set.contains(&i).is_some() != refset.contains(&i) {
                println!("refset: {:?}", &refset);
                println!("set: {:?}", &set);
                assert_eq!(set.contains(&i).is_some(), refset.contains(&i));
            }
        }
    }
}

#[test]
fn u64set_simple() {
    let mut m = U64Map::with_capacity(0);
    m.insert(5, 1);
    assert_eq!(m.len(), 1);
    assert_eq!(m.get(0), None);
    assert_eq!(m.get(5), Some(1));
    for i in 6..80 {
        println!("inserting {}", i);
        m.insert(i, i);
        assert_eq!(m.get(5), Some(1));
    }
    for i in 6..80 {
        assert_eq!(m.get(i), Some(i));
    }
    for i in 81..300 {
        assert_eq!(m.get(i), None);
    }
    assert_eq!(m.get(5), Some(1));
    for i in 6..80 {
        println!("removing {}", i);
        assert_eq!(m.get(i), Some(i));
        assert_eq!(m.remove(i), Some(i));
        assert_eq!(m.get(i), None);
    }
    assert_eq!(m.get(0), None);
    assert_eq!(m.get(5), Some(1));
    assert_eq!(m.len(), 1);

    let mut m = Map6464::new();
    m.insert(5, 1);
    assert_eq!(m.len(), 1);
    assert_eq!(m.get(&0), None);
    assert_eq!(m.get(&5), Some(1));
    for i in 6..80 {
        println!("inserting {}", i);
        m.insert(i, i);
        assert_eq!(m.get(&5), Some(1));
    }
    for i in 6..80 {
        assert_eq!(m.get(&i), Some(i));
    }
    for i in 81..300 {
        assert_eq!(m.get(&i), None);
    }
    assert_eq!(m.get(&5), Some(1));
    for i in 6..80 {
        println!("removing {}", i);
        assert_eq!(m.get(&i), Some(i));
        assert_eq!(m.get(&79), Some(79));
        assert_eq!(m.remove(&i), Some(i));
        assert_eq!(m.get(&i), None);
    }
    assert_eq!(m.get(&0), None);
    assert_eq!(m.get(&5), Some(1));
    assert_eq!(m.len(), 1);

    let mut m = Map64::<u64, &'static str>::new();
    m.insert(0, "hello");
    assert_eq!(m.remove(&1), None);
    assert_eq!(m.remove(&0), Some("hello"));
    println!("goodbye {:?}", &m);
}

#[test]
fn simple_u8() {
    let mut m = Map6464::<u8, u8>::new();
    m.insert(5, 1);
    assert_eq!(m.len(), 1);
    assert_eq!(m.get(&0), None);
    assert_eq!(m.get(&5), Some(1));
    for i in 6..80 {
        println!("inserting {}", i);
        m.insert(i, i);
        assert_eq!(m.get(&5), Some(1));
    }
    for i in 6..80 {
        assert_eq!(m.get(&i), Some(i));
    }
    for i in 81..255 {
        assert_eq!(m.get(&i), None);
    }
    assert_eq!(m.get(&5), Some(1));
    for i in 6..80 {
        println!("removing {}", i);
        assert_eq!(m.get(&i), Some(i));
        assert_eq!(m.get(&79), Some(79));
        assert_eq!(m.remove(&i), Some(i));
        assert_eq!(m.get(&i), None);
    }
    assert_eq!(m.get(&0), None);
    assert_eq!(m.get(&5), Some(1));
    assert_eq!(m.len(), 1);
}

#[test]
fn simple_u64() {
    let mut m = Map64::<u64, u64>::new();
    m.insert(0, 3);
    assert_eq!(m.remove(&1), None);
    println!("hello {:?}", &m);
    assert_eq!(m.remove(&0), Some(3));
    println!("goodbye {:?}", &m);
}

#[test]
fn u64set_reproduce() {
    let i: Vec<Result<(u8, u8), u8>> = vec![Ok((0, 0)), Ok((7, 0)), Ok((3, 1))];

    let mut map = Map6464::<u8, u8>::new();
    let mut refmap = HashMap::<u8, u8>::new();
    for x in i {
        println!("  {:?}", map);
        match x {
            Ok((k, v)) => {
                println!("inputting key {} as {}", k, v);
                map.reserve(1);
                println!("  after reserving {:?} {:?}", map.get(&7), map);
                map.insert(k, v);
                refmap.insert(k, v);
                assert_eq!(map.get(&k), Some(&v).map(|&x| x));
            }
            Err(k) => {
                map.remove(&k);
                refmap.remove(&k);
            }
        }
        assert_eq!(map.len(), refmap.len());
        for i in 0..255 {
            if map.get(&i) != refmap.get(&i).map(|&x| x) {
                println!("trouble with {}: {:?} and {:?}", i, map.get(&i), refmap.get(&i));
                println!("  {:?}", map);
            }
            assert_eq!(map.get(&i), refmap.get(&i).map(|&x| x));
        }
    }

    let i: Vec<Result<(u8, u8), u8>> = vec![
        Ok((0, 0)), Ok((1, 0)), Ok((2, 0)), Ok((3, 0)), Ok((4, 0)),
        Ok((5, 0)), Ok((6, 0)), Ok((7, 0)), Ok((8, 0)), Ok((9, 0)),
        Ok((10, 0)), Ok((11, 0)), Ok((12, 0)), Ok((13, 0)), Ok((14, 0)),
        Ok((0, 0)),
    ];
    let mut map = Map64::<u8, u8>::new();
    let mut refmap = HashMap::<u8, u8>::new();
    for x in i {
        println!("  {:?}", map);
        match x {
            Ok((k, v)) => {
                println!("inputting key {} as {}", k, v);
                assert_eq!(map.insert(k, v), refmap.insert(k, v));
                assert_eq!(map.get(&k), Some(&v));
            }
            Err(k) => {
                map.remove(&k);
                refmap.remove(&k);
            }
        }
        println!("afterwards:  {:?}", map);
        assert_eq!(map.len(), refmap.len());
        for i in 0..255 {
            if map.get(&i) != refmap.get(&i) {
                println!("trouble with {}: {:?} and {:?}", i, map.get(&i), refmap.get(&i));
                println!("  {:?}", map);
            }
            assert_eq!(map.get(&i), refmap.get(&i));
        }
    }
}

#[test]
fn u64map_wide_values() {
    let mut m = U64Map::with_capacity(0);
    m.insert(1, 1000);
    m.insert(2, 3);
    m.insert(70000, 0);
    assert_eq!(m.get(1), Some(1000));
    assert_eq!(m.get(2), Some(3));
    assert_eq!(m.get(70000), Some(0));
    let mut m = U64Map::with_capacity(0);
    m.insert(1000, 1);
    m.insert(3, 300);
    assert_eq!(m.get(3), Some(300));
    assert_eq!(m.get(1000), Some(1));
    assert_eq!(m.len(), 2);
}

#[test]
fn u64map_largest_keys() {
    let mut m = U64Map::with_capacity(0);
    for i in 0..20u64 {
        m.insert(u64::MAX - i, i);
    }
    assert_eq!(m.len(), 20);
    for i in 0..20u64 {
        assert_eq!(m.get(u64::MAX - i), Some(i));
    }
    assert_eq!(m.remove(u64::MAX), Some(0));
    assert_eq!(m.get(u64::MAX), None);
    assert_eq!(m.len(), 19);
    let mut n = 0;
    let mut it = m.iter();
    while let Some((k, v)) = it.next() {
        assert_eq!(k, u64::MAX - v);
        n += 1;
    }
    assert_eq!(n, 19);
}

#[test]
fn map6464_signed_and_iter() {
    let mut m: Map6464<i32, i64> = Map6464::new();
    for i in -50i32..50 {
        assert_eq!(m.insert(i, (i as i64) * 1000), None);
    }
    assert_eq!(m.insert(-7, 5), Some(-7000));
    assert_eq!(m.len(), 100);
    assert_eq!(m.get(&-7), Some(5));
    assert_eq!(m.remove(&-50), Some(-50000));
    let mut it = m.iter();
    let mut n = 0;
    while let Some((k, v)) = it.next() {
        assert_eq!(m.get(&k), Some(v));
        n += 1;
    }
    assert_eq!(n, 99);
}

/// The largest `u64` is an element like any other, in a set of any size.
#[test]
fn set64_largest_values() {
    let mut s = Set64::<u64>::new();
    for i in 0..40u64 {
        assert!(s.insert(i));
    }
    assert!(s.insert(u64::MAX));
    assert!(s.insert(u64::MAX - 1));
    assert!(!s.insert(u64::MAX));
    assert_eq!(s.len(), 42);
    assert!(s.contains(&u64::MAX));
    for i in 0..40u64 {
        assert!(s.contains(&i));
    }
    assert!(s.remove(&u64::MAX));
    assert!(!s.contains(&u64::MAX));
    assert!(s.contains(&(u64::MAX - 1)));
    let mut all = s.iter();
    all.sort();
    assert_eq!(all.len(), 41);
    assert_eq!(all[40], u64::MAX - 1);
}

/// Sets of signed values, small and large, and draining.
#[test]
fn set64_signed_and_drain() {
    let mut s = Set64::<i16>::new();
    for i in -300i16..300 {
        s.insert(i * 3);
    }
    assert_eq!(s.len(), 600);
    assert!(s.contains(&-900));
    assert!(!s.contains(&-899));
    let mut d = s.drain();
    assert_eq!(s.len(), 0);
    let mut n = 0;
    while let Some(x) = d.next() {
        assert_eq!(x % 3, 0);
        n += 1;
    }
    assert_eq!(n, 600);
    let mut t = Set64::<i16>::new();
    t.insert(1);
    let mut u = Set64::<i16>::new();
    u.insert(1);
    assert!(t.eq(&u));
    u.insert(2);
    assert!(!t.eq(&u));
}

/// A map with many keys keeps every value, through growth and removal.
#[test]
fn map64_many() {
    let mut m = Map64::<u32, u64>::new();
    for i in 0..1000u32 {
        assert_eq!(m.insert(i * 5, (i as u64) * 7), None);
    }
    assert_eq!(m.insert(5, 1), Some(7));
    assert_eq!(m.len(), 1000);
    for i in 0..1000u32 {
        if i != 1 {
            assert_eq!(m.get(&(i * 5)), Some(&((i as u64) * 7)));
        }
        assert!(!m.contains_key(&(i * 5 + 1)));
    }
    for i in 0..500u32 {
        assert!(m.remove(&(i * 10)).is_some());
    }
    assert_eq!(m.len(), 500);
    assert_eq!(m.iter().len(), 500);
    let mut big = Map64::<u64, u8>::new();
    big.insert(u64::MAX, 1);
    big.insert(0, 2);
    assert_eq!(big.get(&u64::MAX), Some(&1));
    assert_eq!(big.remove(&u64::MAX), Some(1));
    assert_eq!(big.get(&u64::MAX), None);
    assert_eq!(big.get(&0), Some(&2));
}

#[test]
fn map64_values() {
    let mut m: Map64<u64, u32> = Map64::new();
    m.insert(1, 10);
    m.insert(2, 20);
    m.insert(300, 30);
    m.insert(2, 25);
    let mut vs = m.values();
    vs.sort();
    assert_eq!(vs, vec![&10, &25, &30]);
}

/// Values that are not `Copy` move with their keys through growth and
/// removal, and the removed value is handed back.
#[test]
fn map64_owned_values() {
    let mut m: Map64<u64, String> = Map64::new();
    for i in 0..300u64 {
        assert_eq!(m.insert(i * 3, format!("v{}", i)), None);
    }
    assert_eq!(m.insert(1 << 40, String::from("big")), None);
    assert_eq!(m.insert(3, String::from("three")), Some(String::from("v1")));
    assert_eq!(m.len(), 301);
    assert_eq!(m.get(&3), Some(&String::from("three")));
    assert_eq!(m.get(&(1 << 40)), Some(&String::from("big")));
    for i in 2..300u64 {
        assert_eq!(m.get(&(i * 3)), Some(&format!("v{}", i)));
    }
    assert_eq!(m.remove(&0), Some(String::from("v0")));
    assert_eq!(m.remove(&0), None);
    assert_eq!(m.get(&0), None);
    assert_eq!(m.len(), 300);
    let mut n = 0;
    for (k, v) in m.iter() {
        assert_eq!(m.get(&k), Some(v));
        n += 1;
    }
    assert_eq!(n, 300);
    assert_eq!(m.values().len(), 300);
}

#[test]
fn set64_difference_example() {
    let a: Set64<u32> = Set64::from_items(vec![1, 2, 3]);
    let b: Set64<u32> = Set64::from_items(vec![3, 4, 5]);
    let set = a.difference(&b);
    let mut i = 0;
    let expected = [1, 2];
    for x in set.iter() {
        assert!(expected.contains(&x));
        i += 1;
    }
    assert_eq!(i, expected.len());
}

#[test]
fn set64_extend_example() {
    let mut a: Set64<u32> = Set64::from_items(vec![1, 2, 3]);
    a.extend(vec![3, 4, 5]);
    let mut i = 0;
    let expected = [1, 2, 3, 4, 5];
    for x in a.iter() {
        assert!(expected.contains(&x));
        i += 1;
    }
    assert_eq!(i, expected.len());
}

#[test]
fn set64_union_example() {
    let a: Set64<u32> = Set64::from_items(vec![1, 2, 3]);
    let b: Set64<u32> = Set64::from_items(vec![3, 4, 5]);
    let set = a.union(&b);
    let mut i = 0;
    let expected = [1, 2, 3, 4, 5];
    for x in set.iter() {
        assert!(expected.contains(&x));
        i += 1;
    }
    assert_eq!(i, expected.len());
}

#[test]
fn set64_from_items_large() {
    let items: Vec<u64> = (0..500u64).map(|i| i * 1_000_003).collect();
    let s: Set64<u64> = Set64::from_items(items.clone());
    assert_eq!(s.len(), 500);
    for x in items {
        assert!(s.contains(&x));
    }
    assert!(!s.contains(&1));
}

#[test]
fn u64set_from_items_dedups() {
    let s = U64Set::from_items(vec![7, 3, 7, 1_000_000, u64::MAX, 3]);
    assert_eq!(s.len(), 4);
    assert!(s.contains(&7).is_some());
    assert!(s.contains(&1_000_000).is_some());
    assert!(s.contains(&u64::MAX).is_some());
    assert!(s.contains(&8).is_none());
    let e = U64Set::from_items(vec![]);
    assert_eq!(e.len(), 0);
}

#[test]
fn u64map_eq_compares_entries() {
    let mut a = U64Map::with_capacity(0);
    let mut b = U64Map::with_capacity(0);
    assert!(a.eq(&b));
    a.insert(1, 10);
    a.insert(70000, 2);
    b.insert(70000, 2);
    assert!(!a.eq(&b));
    b.insert(1, 11);
    assert!(!a.eq(&b));
    b.insert(1, 10);
    assert!(a.eq(&b));
    assert!(b.eq(&a));
    a.remove(70000);
    assert!(!a.eq(&b));
}

#[test]
fn map64_eq_compares_entries() {
    let mut a: Map64<u64, u32> = Map64::new();
    let mut b: Map64<u64, u32> = Map64::new();
    assert!(a.eq(&b));
    a.insert(5, 50);
    a.insert(1 << 40, 7);
    b.insert(1 << 40, 7);
    assert!(!a.eq(&b));
    b.insert(5, 51);
    assert!(!a.eq(&b));
    b.insert(5, 50);
    assert!(a.eq(&b));
    assert!(b.eq(&a));
    b.remove(&5);
    assert!(!a.eq(&b));
}

#[test]
fn set64_sorted_codes_and_hash() {
    let mut a = Set64::<u64>::new();
    let mut b = Set64::<u64>::new();
    for x in [9u64, 1 << 40, 3, 0] {
        a.insert(x);
    }
    for x in [0u64, 3, 1 << 40, 9, 3] {
        b.insert(x);
    }
    assert_eq!(a.sorted_codes(), vec![0, 3, 9, 1 << 40]);
    let mut ha = std::collections::hash_map::DefaultHasher::new();
    let mut hb = std::collections::hash_map::DefaultHasher::new();
    a.hash(&mut ha);
    b.hash(&mut hb);
    assert_eq!(std::hash::Hasher::finish(&ha), std::hash::Hasher::finish(&hb));
    let mut hc = std::collections::hash_map::DefaultHasher::new();
    b.remove(&9);
    b.hash(&mut hc);
    assert_ne!(std::hash::Hasher::finish(&ha), std::hash::Hasher::finish(&hc));
}

#[test]
fn u64set_co_insert_remove_with_values() {
    let mut s = U64Set::with_capacity(0);
    assert_eq!(s.rawcapacity(), 22);
    // Longer than the storage: the extra values are left alone.
    let mut vals = vec![0u64; 30];
    vals[29] = 99;
    assert_eq!(s.co_insert_unchecked(&mut vals, 1, 10), None);
    assert_eq!(s.co_insert_unchecked(&mut vals, 2, 20), None);
    assert_eq!(s.co_insert_unchecked(&mut vals, 3, 30), None);
    assert_eq!(s.co_insert_unchecked(&mut vals, 3, 33), Some(30));
    assert_eq!(s.co_remove(&mut vals, 1), Some(10));
    assert_eq!(s.co_remove(&mut vals, 1), None);
    assert_eq!(s.len(), 2);
    assert!(s.contains(&1).is_none());
    assert_eq!(vals[s.contains(&2).unwrap()], 20);
    assert_eq!(vals[s.contains(&3).unwrap()], 33);
    assert_eq!(vals[29], 99);
    let mut es = s.co_entries(&vals);
    es.sort();
    assert_eq!(es, vec![(2, 20), (3, 33)]);
}

#[test]
fn char_keys() {
    let mut a: Map6464<char, usize> = Map6464::new();
    a.insert('a', 1);
    a.insert('b', 2);
    assert_eq!(a.get(&'a'), Some(1));
    assert_eq!(a.get(&'b'), Some(2));
    let mut m: Map64<char, &str> = Map64::new();
    m.insert('a', "hello");
    m.insert('b', "world");
    assert_eq!(m.get(&'a'), Some(&"hello"));
    assert_eq!(m.get(&'b'), Some(&"world"));
    for c in ['\0', 'a', 'é', '\u{D7FF}', '\u{E000}', '\u{10FFFF}'] {
        assert!(c.test_fits64());
        assert_eq!(char::from_u64(c.to_u64()), c);
    }
    let mut s = Set64::<char>::new();
    s.insert('z');
    assert!(s.contains(&'z'));
}
