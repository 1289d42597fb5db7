use tinyset::map64::Map64;

#[test]
fn map64() {
    let mut x: Map64<u8, String> = Map64::new();
    assert!(x.get(b'X').is_none());
    assert!(x.insert(b'X', "X is awesome".to_string()).is_none());
}

#[test]
fn map64_insert_get_remove() {
    let mut m: Map64<u64, u32> = Map64::new();
    assert_eq!(m.len(), 0);
    assert!(m.remove(3).is_none());
    for (k, v) in [(0u64, 10u32), (5, 50), (1000, 7), (7, 70)] {
        assert!(m.fits(k));
        assert_eq!(m.insert(k, v), None);
    }
    assert_eq!(m.len(), 4);
    assert_eq!(m.get(0), Some(&10));
    assert_eq!(m.get(5), Some(&50));
    assert_eq!(m.get(1000), Some(&7));
    assert_eq!(m.get(7), Some(&70));
    assert_eq!(m.get(6), None);
    assert_eq!(m.insert(5, 55), Some(50));
    assert_eq!(m.get(5), Some(&55));
    assert_eq!(m.len(), 4);
    assert_eq!(m.remove(0), Some(10));
    assert_eq!(m.remove(0), None);
    assert!(!m.contains_key(0));
    assert_eq!(m.len(), 3);
    assert_eq!(m.get(5), Some(&55));
    assert_eq!(m.get(1000), Some(&7));
    assert_eq!(m.get(7), Some(&70));
    assert_eq!(m.remove(7), Some(70));
    assert_eq!(m.remove(5), Some(55));
    assert_eq!(m.remove(1000), Some(7));
    assert_eq!(m.len(), 0);
    assert_eq!(m.insert(1, 1), None);
    assert_eq!(m.get(1), Some(&1));
}

#[test]
fn map64_many_keys() {
    let mut m: Map64<u64, u64> = Map64::default();
    for i in 0..300u64 {
        let k = i * 7919;
        assert!(m.fits(k));
        assert_eq!(m.insert(k, i), None);
    }
    assert_eq!(m.len(), 300);
    for i in 0..300u64 {
        assert_eq!(m.get(i * 7919), Some(&i));
    }
    for i in (0..300u64).filter(|i| i % 3 == 0) {
        assert_eq!(m.remove(i * 7919), Some(i));
    }
    assert_eq!(m.len(), 200);
    for i in 0..300u64 {
        if i % 3 == 0 {
            assert_eq!(m.get(i * 7919), None);
        } else {
            assert_eq!(m.get(i * 7919), Some(&i));
        }
    }
}

#[test]
fn map64_widths() {
    let m: Map64<u64, u8> = Map64::new();
    assert!(m.fits(1 << 61));
    assert!(!m.fits(1 << 62));
    assert!(!m.fits(u64::MAX));
}

#[test]
fn map64_signed_keys() {
    let mut m: Map64<i32, &str> = Map64::new();
    assert_eq!(m.insert(-1, "minus one"), None);
    assert_eq!(m.insert(1, "one"), None);
    assert_eq!(m.insert(-5, "minus five"), None);
    assert_eq!(m.get(-1), Some(&"minus one"));
    assert_eq!(m.get(1), Some(&"one"));
    assert_eq!(m.get(-5), Some(&"minus five"));
    assert_eq!(m.get(5), None);
    assert_eq!(m.remove(-1), Some("minus one"));
    assert_eq!(m.get(-5), Some(&"minus five"));
    assert_eq!(m.len(), 2);
}
