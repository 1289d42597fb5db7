use std::collections::HashSet;
use tinyset::rand::{mix64, rand32, rand64, rand_usize};
use tinyset::tinyset::{capacity_to_rawcapacity, HasInvalid, TinySet};

/// The xorshift128 generator, seeded with four words.
struct XorShift {
    x: u32,
    y: u32,
    z: u32,
    w: u32,
}

impl XorShift {
    fn from_seed(seed: [u32; 4]) -> XorShift {
        assert!(seed != [0, 0, 0, 0]);
        XorShift { x: seed[0], y: seed[1], z: seed[2], w: seed[3] }
    }

    fn next_u32(&mut self) -> u32 {
        let x = self.x;
        let t = x ^ (x << 11);
        self.x = self.y;
        self.y = self.z;
        self.z = self.w;
        let w = self.w;
        self.w = w ^ (w >> 19) ^ (t ^ (t >> 8));
        self.w
    }
}

fn initialize_tiny_u8(num: usize) -> TinySet<u8> {
    let mut rng = XorShift::from_seed([num as u32, num as u32, 3, 4]);
    let mut set = TinySet::<u8>::new();
    let mut refset = HashSet::<u8>::new();
    if num > 0 {
        while set.len() < num {
            let ins = (rng.next_u32() as u8) % (2 * num as u8);
            let rem = (rng.next_u32() as u8) % (2 * num as u8);
            set.insert(ins);
            assert!(set.contains(&ins));
            set.remove(&rem);
            assert!(!set.contains(&rem));
            refset.insert(ins);
            refset.remove(&rem);
            for i in 0..255 {
                assert_eq!(set.contains(&i), refset.contains(&i));
            }
        }
    }
    set
}

fn initialize_hash_u8(num: usize) -> HashSet<u8> {
    let mut rng = XorShift::from_seed([num as u32, num as u32, 3, 4]);
    let mut set = HashSet::<u8>::new();
    if num > 0 {
        while set.len() < num {
            let ins = (rng.next_u32() as u8) % (2 * num as u8);
            let rem = (rng.next_u32() as u8) % (2 * num as u8);
            set.insert(ins);
            set.remove(&rem);
        }
    }
    set
}

fn initialize_tiny_u16(num: usize) -> TinySet<u16> {
    let mut rng = XorShift::from_seed([num as u32, num as u32, 3, 4]);
    let mut set = TinySet::<u16>::new();
    let mut refset = HashSet::<u16>::new();
    if num > 0 {
        while set.len() < num {
            let ins = (rng.next_u32() as u16) % (2 * num as u16);
            let rem = (rng.next_u32() as u16) % (2 * num as u16);
            set.insert(ins);
            assert!(set.contains(&ins));
            set.remove(&rem);
            assert!(!set.contains(&rem));
            refset.insert(ins);
            refset.remove(&rem);
            for i in 0..255 {
                assert_eq!(set.contains(&i), refset.contains(&i));
            }
        }
    }
    set
}

fn initialize_hash_u16(num: usize) -> HashSet<u16> {
    let mut rng = XorShift::from_seed([num as u32, num as u32, 3, 4]);
    let mut set = HashSet::<u16>::new();
    if num > 0 {
        while set.len() < num {
            let ins = (rng.next_u32() as u16) % (2 * num as u16);
            let rem = (rng.next_u32() as u16) % (2 * num as u16);
            set.insert(ins);
            set.remove(&rem);
        }
    }
    set
}

#[test]
fn tinyset_it_works() {
    let mut ss: TinySet<usize> = TinySet::new();
    println!("inserting 5");
    ss.insert(5);
    println!("contains 5");
    assert!(ss.contains(&5));
    println!("contains 4");
    assert!(!ss.contains(&4));
    println!("inserting 3");
    ss.insert(3);
    println!("now {:?}", &ss);
    assert!(ss.contains(&3));
    assert!(ss.contains(&5));
    assert_eq!(ss.len(), 2);
    for num in ss.iter() {
        println!("num is {}", num);
        assert!(ss.contains(&num));
    }
    assert!(!ss.remove(&2));
    assert!(ss.remove(&3));
    assert!(!ss.contains(&3));
    assert_eq!(ss.len(), 1);
}

#[test]
fn tinyset_size_unwasted() {
    println!("small size: {}", std::mem::size_of::<TinySet<usize>>());
    println!(" hash size: {}", std::mem::size_of::<HashSet<usize>>());
    assert!(std::mem::size_of::<TinySet<usize>>() <= 2 * std::mem::size_of::<HashSet<usize>>());
    assert!(std::mem::size_of::<TinySet<usize>>() <= 24);
}

#[test]
fn random_inserts_and_removals_u8() {
    for sz in 0..50 {
        println!("\nTinySet {}\n", sz);
        let myset = initialize_tiny_u8(sz);
        println!("\nHashSet {}\n", sz);
        let refset = initialize_hash_u8(sz);
        for i in 0..255 {
            assert_eq!(myset.contains(&i), refset.contains(&i));
        }
    }
}

#[test]
fn random_inserts_and_removals_u16() {
    for sz in 0..20 {
        println!("\nTinySet {}\n", sz);
        let myset = initialize_tiny_u16(sz);
        println!("\nHashSet {}\n", sz);
        let refset = initialize_hash_u16(sz);
        for i in 0..50 {
            assert_eq!(myset.contains(&i), refset.contains(&i));
        }
    }
}

#[test]
fn test_matches_u8() {
    let mut steps: Vec<Result<u8, u8>> = vec![Err(8), Ok(0), Ok(16), Ok(1), Ok(8)];
    let mut set = TinySet::<u8>::new();
    let mut refset = HashSet::<u8>::new();
    loop {
        match steps.pop() {
            Some(Ok(v)) => {
                println!("\ninserting {}", v);
                set.insert(v);
                refset.insert(v);
            }
            Some(Err(v)) => {
                println!("\nremoving {}", v);
                set.remove(&v);
                refset.remove(&v);
            }
            None => return,
        }
        println!("set: {:?}", set);
        println!("refset: {:?}", refset);
        assert_eq!(set.len(), refset.len());
        for i in 0..255 {
            if set.contains(&i) != refset.contains(&i) {
                println!("trouble at {}", i);
                assert_eq!(set.contains(&i), refset.contains(&i));
            }
        }
    }
}

#[test]
fn tinyset_invalid_values() {
    assert_eq!(<u8 as HasInvalid>::invalid(), 255);
    assert_eq!(<u16 as HasInvalid>::invalid(), u16::MAX);
    assert_eq!(<u32 as HasInvalid>::invalid(), u32::MAX);
    assert_eq!(<u64 as HasInvalid>::invalid(), u64::MAX);
    assert_eq!(<usize as HasInvalid>::invalid(), usize::MAX);
    let mut s = TinySet::<u8>::new();
    assert!(!s.contains(&255));
    assert!(!s.remove(&255));
    assert_eq!(s.len(), 0);
}

#[test]
fn tinyset_fnv_hashes() {
    assert_eq!(1u8.hash_usize() as u64, 0xaf63bc4c8601b62c);
    assert_eq!(1u16.hash_usize() as u64, 0x082f2207b4e88cc4);
    assert_eq!(1u32.hash_usize() as u64, 0xad2aca7747985764);
    assert_eq!(1u64.hash_usize() as u64, 0x89cd31291d2aefa4);
    assert_eq!(1usize.hash_usize() as u64, 0x89cd31291d2aefa4);
}

#[test]
fn tinyset_capacities() {
    assert_eq!(capacity_to_rawcapacity(0), 1);
    assert_eq!(capacity_to_rawcapacity(3), 4);
    assert_eq!(capacity_to_rawcapacity(4), 4);
    assert_eq!(capacity_to_rawcapacity(5), 16);
    assert_eq!(capacity_to_rawcapacity(10), 32);
}

#[test]
fn tinyset_grows_and_drains() {
    let mut s = TinySet::<u32>::with_capacity(3);
    for i in 0..200u32 {
        assert!(s.insert(i * 7));
        assert!(!s.insert(i * 7));
    }
    assert_eq!(s.len(), 200);
    for i in 0..200u32 {
        assert!(s.contains(&(i * 7)));
        assert!(!s.contains(&(i * 7 + 1)));
    }
    for i in 0..100u32 {
        assert!(s.remove(&(i * 14)));
    }
    assert_eq!(s.len(), 100);
    let mut items = s.drain();
    items.sort();
    let expected: Vec<u32> = (0..100u32).map(|i| i * 14 + 7).collect();
    assert_eq!(items, expected);
    assert_eq!(s.len(), 0);
    assert!(!s.contains(&7));
}

#[test]
fn rand_values() {
    assert_eq!(rand64(1, 2), 6227026462188158977);
    assert_eq!(rand64(3, 0), 11070125515288929833);
    assert_eq!(rand64(0, 0), 0);
    assert_eq!(rand32(5, 7), 1853101368);
    assert_eq!(rand_usize(1, 2) as u64, 6227026462188158977);
    assert_eq!(mix64(1), 6238072747940578789);
    assert_eq!(mix64(0x9e3779b97f4a7c15), 0xe220a8397b1dcdaf);
}
