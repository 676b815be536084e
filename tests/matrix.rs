use fwrf::dim_col;
use fwrf::dim_row;
use fwrf::echar::EncodedChar;
use fwrf::matrix::{Dims, MatrixIndex, WordMatrix};
use fwrf::wordstuffs::{EitherWord, Word};

#[test]
fn index_steps_row_major() {
    let d = Dims::new(3, 2).unwrap();
    let a = MatrixIndex { row: 0, col: 2 };
    assert_eq!(a.inc(d), Some(MatrixIndex { row: 1, col: 0 }));
    assert_eq!(MatrixIndex { row: 1, col: 0 }.dec(d), Some(a));
    assert_eq!(MatrixIndex { row: 1, col: 2 }.inc(d), None);
    assert_eq!(MatrixIndex::zero().dec(d), None);
    assert_eq!(MatrixIndex { row: 1, col: 2 }.into_flat_index(d), 5);
    assert!(Dims::new(0, 3).is_none());
    assert!(Dims::new(17, 3).is_none());
}

#[test]
fn rows_and_columns() {
    let d = Dims::new(3, 2).unwrap();
    let mut m = WordMatrix::nulls(d);
    dim_row::set_matrix(&mut m, 1, &Word::from_str_no_nulls("abc", 3).unwrap());
    dim_col::set_matrix(&mut m, 0, &Word::from_str_no_nulls("xy", 2).unwrap());
    assert_eq!(dim_row::index_matrix(&m, 1), Word::from_str_no_nulls("ybc", 3).unwrap());
    assert_eq!(dim_col::index_matrix(&m, 2), Word::from_str_with_nulls("&c", 2).unwrap());
    let p = MatrixIndex { row: 1, col: 2 };
    assert_eq!(dim_row::get_my_index(p), 1);
    assert_eq!(dim_col::get_my_index(p), 2);
    assert_eq!(dim_col::get_word_intersecting_point(&m, p), Word::from_str_with_nulls("&c", 2).unwrap());
    assert_eq!(dim_row::back(p), Some(MatrixIndex { row: 0, col: 2 }));
    assert_eq!(dim_col::back(MatrixIndex { row: 1, col: 0 }), None);
    assert_eq!(m.get(p), EncodedChar::try_from_char('c').unwrap());
}

#[test]
fn orientation_helpers() {
    let d = Dims::new(3, 2).unwrap();
    let e = EitherWord::from_str_no_nulls("abc", d).unwrap();
    assert!(dim_row::get_from_either(&e, d).is_some());
    assert!(dim_col::get_from_either(&e, d).is_none());
    let pair = (1u8, 2u8);
    assert_eq!(*dim_row::index_tuple(&pair), 1);
    assert_eq!(*dim_col::index_tuple(&pair), 2);
    let mut pair2 = (1u8, 2u8);
    *dim_col::index_tuple_mut(&mut pair2) = 5;
    assert_eq!(pair2, (1, 5));
}
