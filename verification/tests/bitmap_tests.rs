use everything_index::bitmap::CharBitmap;

#[test]
fn test_bitmap_operations() {
    let mut bm1 = CharBitmap::new();
    let mut bm2 = CharBitmap::new();

    bm1.set_str("hello");
    bm2.set_str("world");

    let and = bm1.intersect(&bm2);
    assert!(and.test(b'l'));
    assert!(and.test(b'o'));
    assert!(!and.test(b'h'));
    assert!(!and.test(b'w'));

    let or = bm1.union(&bm2);
    assert!(or.test(b'h'));
    assert!(or.test(b'w'));
    assert!(or.test(b'l'));
    assert!(or.test(b'o'));
    assert!(or.test(b'd'));
}

#[test]
fn test_pattern_matching() {
    let mut bm = CharBitmap::new();
    bm.set_str("hello world");

    assert!(bm.contains_pattern(b"hell"));
    assert!(bm.contains_pattern(b"world"));
    assert!(!bm.contains_pattern(b"xyz"));
}

#[test]
fn test_set_affects_only_one_bit() {
    for b in 0..=255u8 {
        let mut bm = CharBitmap::new();
        bm.set(b);
        assert!(bm.test(b));
        for other in 0..=255u8 {
            if other != b {
                assert!(!bm.test(other));
            }
        }
    }
}

#[test]
fn test_set_preserves_existing_bits() {
    let mut bm = CharBitmap::new();
    bm.set(b'a');
    bm.set(b'z');
    assert!(bm.test(b'a'));
    assert!(bm.test(b'z'));
    assert!(!bm.test(b'b'));
}

#[test]
fn test_union_assign_and_contains_all() {
    let mut a = CharBitmap::new();
    a.set_str("abc");
    let mut b = CharBitmap::new();
    b.set_str("ab");
    assert!(a.contains_all(&b));
    assert!(!b.contains_all(&a));
    b.union_assign(&a);
    assert!(b.contains_all(&a));
    assert!(a.contains_all(&b));
}

#[test]
fn test_get_rejects_non_ascii() {
    let mut bm = CharBitmap::new();
    bm.set(200);
    assert!(bm.test(200));
    assert!(!bm.get(200));
    bm.set(b'q');
    assert!(bm.get(b'q'));
    assert!(!bm.get(b'r'));
}

#[test]
fn test_bitmap_serialization_round_trip() {
    let mut bm = CharBitmap::new();
    bm.set_str("some bytes");
    let mut out: Vec<u8> = Vec::new();
    bm.write_to(&mut out);
    assert_eq!(out.len(), 32);
    let (back, end) = CharBitmap::read_from(out.as_slice(), 0).unwrap();
    assert_eq!(end, 32);
    for b in 0..=255u8 {
        assert_eq!(bm.test(b), back.test(b));
    }
    assert!(CharBitmap::read_from(&out[..31], 0).is_err());
}
