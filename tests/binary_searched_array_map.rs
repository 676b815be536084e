use fwrf::binary_searched_array_map::{BinarySearchedArrayMap, Pair};

#[test]
fn it_do_stuff() {
    let bsam = BinarySearchedArrayMap::from_sorted(&[(0, 'a'), (1, 'b'), (2, 'c')]);

    let entry = bsam.entry(1);
    assert_eq!(entry.get(), Some(&Pair::from((1, 'b'))));
    assert_eq!(entry.entry_near(0).get(), Some(&Pair::from((0, 'a'))));
    assert_eq!(entry.entry_near(2).get(), Some(&Pair::from((2, 'c'))));
    let three = entry.entry_near(2);
    assert_eq!(three.entry_near(0).get(), Some(&Pair::from((0, 'a'))));
    assert_eq!(three.entry_near(2).entry_near(1).get(), Some(&Pair::from((1, 'b'))));
    assert_eq!(three.entry_near(2).entry_near(2).get(), Some(&Pair::from((2, 'c'))));
}

#[test]
fn it_do_beeg_stuff() {
    let keys: Vec<i64> = (0..1000).into_iter().map(|n| n * 10).collect();
    let items: Vec<(i64, ())> = keys.iter().copied().map(|n| (n, ())).collect();
    let bsam = BinarySearchedArrayMap::from_sorted(&items);

    let expect = |n: i64| Some(Pair::from((n, ())));

    assert_eq!(bsam.entry(0).get(), expect(0).as_ref());
    assert_eq!(bsam.entry(1).get(), None);
    assert_eq!(bsam.entry(9990).get(), expect(9990).as_ref());
    for init in [-100, -1, 0, 1, 10, 4999, 5000, 9985, 9990, 9999] {
        let entry = bsam.entry(init);
        for (a, b) in [
            (-1, false),
            (0, true),
            (1, false),
            (10, true),
            (11, false),
            (4990, true),
            (4999, false),
            (5000, true),
            (5001, false),
            (5010, true),
            (5015, false),
            (9980, true),
            (9985, false),
            (9990, true),
            (9999, false),
        ] {
            let thing = expect(a);
            let near_entry = entry.entry_near(a);
            assert_eq!(near_entry.get(), if b { thing.as_ref() } else { None });
            assert_eq!(near_entry.present(), b);
        }
    }
}

#[test]
fn entry_positions_and_blank_entry() {
    let bsam = BinarySearchedArrayMap::from_sorted(&[(2, 'x'), (5, 'y'), (9, 'z')]);
    assert_eq!(bsam.entry(5).index, 1);
    assert_eq!(bsam.entry(6).index, 2);
    assert!(!bsam.entry(6).present());
    assert_eq!(bsam.entry(100).index, 3);
    let blank = bsam.get_first_blank_entry();
    assert_eq!(blank.index, 0);
    assert!(blank.get().is_none());
    assert_eq!(blank.entry_near(9).get(), Some(&Pair::new(9, 'z')));
    let empty: BinarySearchedArrayMap<char> = BinarySearchedArrayMap::from_sorted_pairs(Vec::new());
    assert!(!empty.get_first_blank_entry().entry_near(3).present());
}
