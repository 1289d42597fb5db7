use std::collections::HashSet;
use tinyset::tinyset::HasInvalid;
use tinyset::usizeset::USizeSet;

#[test]
fn usizeset_it_works() {
    let mut ss = USizeSet::new();
    println!("inserting 5");
    ss.insert(5);
    println!("contains 5");
    assert!(ss.contains(&5));
    println!("contains 4");
    assert!(!ss.contains(&4));
    println!("inserting 3");
    ss.insert(3);
    println!("now {:?}", &ss);
    assert!(ss.contains(&3));
    assert!(ss.contains(&5));
    assert_eq!(ss.len(), 2);
    for num in ss.iter() {
        println!("num is {}", num);
        assert!(ss.contains(&num));
    }
    assert!(!ss.remove(&2));
    assert!(ss.remove(&3));
    assert!(!ss.contains(&3));
    assert_eq!(ss.len(), 1);
}

#[test]
fn usizeset_size_unwasted() {
    println!("small size: {}", std::mem::size_of::<USizeSet>());
    println!(" hash size: {}", std::mem::size_of::<HashSet<usize>>());
    assert!(std::mem::size_of::<USizeSet>() <= 2 * std::mem::size_of::<HashSet<usize>>());
    assert!(std::mem::size_of::<USizeSet>() <= 24);
}

#[test]
fn usizeset_test_matches() {
    let mut steps: Vec<Result<usize, usize>> = vec![Err(8), Ok(0), Ok(16), Ok(1), Ok(8)];
    let mut set = USizeSet::new();
    let mut refset = HashSet::<usize>::new();
    loop {
        match steps.pop() {
            Some(Ok(v)) => {
                println!("\ninserting {}", v);
                set.insert(v);
                refset.insert(v);
            }
            Some(Err(v)) => {
                println!("\nremoving {}", v);
                set.remove(&v);
                refset.remove(&v);
            }
            None => return,
        }
        println!("set: {:?}", set);
        println!("refset: {:?}", refset);
        assert_eq!(set.len(), refset.len());
        for i in 0..255 {
            if set.contains(&i) != refset.contains(&i) {
                println!("trouble at {}", i);
                assert_eq!(set.contains(&i), refset.contains(&i));
            }
        }
    }
}

#[test]
fn usizeset_specific_bigint() {
    let mut steps: Vec<Result<(usize, u8), (usize, u8)>> =
        vec![Ok((84, 30)), Ok((0, 0)), Ok((0, 0)), Ok((1, 0)), Ok((1, 1)), Ok((1, 2)), Ok((2, 15))];
    let mut set = USizeSet::new();
    let mut refset = HashSet::<usize>::new();
    loop {
        match steps.pop() {
            Some(Ok((v, shift))) => {
                let v = v << (shift & 31);
                println!(" adding {}", v);
                println!("compare {}", u32::invalid());
                set.insert(v);
                refset.insert(v);
            }
            Some(Err((v, shift))) => {
                let v = v << (shift & 31);
                println!("removing {}", v);
                set.remove(&v);
                refset.remove(&v);
            }
            None => return,
        }
        println!("refset: {:?}", &refset);
        println!("set: {:?}", &set);
        for x in set.iter() {
            println!(" {}", x);
        }
        assert_eq!(set.len(), refset.len());
        for i in 0..2550 {
            if set.contains(&i) != refset.contains(&i) {
                println!("refset: {:?}", &refset);
                println!("set: {:?}", &set);
                assert_eq!(set.contains(&i), refset.contains(&i));
            }
        }
    }
}

#[test]
fn usizeset_largest() {
    let mut s = USizeSet::new();
    s.insert(usize::MAX);
    s.insert(0);
    assert!(s.contains(&usize::MAX));
    assert!(s.contains(&0));
    assert_eq!(s.len(), 2);
}
