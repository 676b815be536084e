use fwrf::bsam2::{Bsam2, KeysIter};

#[test]
fn chunks_and_pads_keys() {
    let items: Vec<(u64, char)> = vec![(1, 'a'), (4, 'b'), (9, 'c')];
    let b = Bsam2::from_iter(&items, '-').unwrap();
    assert_eq!(b.simd_keys().len(), 1);
    assert_eq!(b.keys(), vec![1, 4, 9, 10, 11, 12, 13, 14]);
    assert_eq!(b.vals, vec!['a', 'b', 'c', '-', '-', '-', '-', '-']);
}

#[test]
fn full_chunks_need_no_padding() {
    let items: Vec<(u64, ())> = (0..16u64).map(|k| (k * 3, ())).collect();
    let b = Bsam2::from_iter(&items, ()).unwrap();
    assert_eq!(b.simd_keys().len(), 2);
    assert_eq!(b.keys()[15], 45);
    let empty: Vec<(u64, ())> = Vec::new();
    assert!(Bsam2::from_iter(&empty, ()).unwrap().keys().is_empty());
}

#[test]
fn refuses_unordered_or_crowded_keys() {
    assert!(Bsam2::from_iter(&[(5u64, 0u8), (5, 1)], 0).is_none());
    assert!(Bsam2::from_iter(&[(7u64, 0u8), (3, 1)], 0).is_none());
    assert!(Bsam2::from_iter(&[(u64::MAX - 2, 0u8)], 0).is_none());
    assert!(Bsam2::from_iter(&[(u64::MAX - 7, 0u8)], 0).is_some());
}

#[test]
fn keys_iter_walks_every_key() {
    let b = Bsam2::from_iter(&[(2u64, 'x')], 'y').unwrap();
    let mut it = KeysIter { keys: &b.keys, idx: 0 };
    let mut seen = Vec::new();
    while let Some(k) = it.next() {
        seen.push(k);
    }
    assert_eq!(seen, vec![2, 3, 4, 5, 6, 7, 8, 9]);
}
