//! The columns of a grid, as one of the two orientations.

use vstd::prelude::*;

use fnv::FnvHashMap;

use crate::charset::CharSet;
use crate::matrix::{Dims, line_count, line_len, line_of, line_word, with_line, write_line, MatrixIndex, WordMatrix};
use crate::prefix_map::WordPrefixMap;
use crate::wordstuffs::{EitherWord, Word};

verus! {

/// Column `i` of the grid.
pub fn index_matrix(matrix: &WordMatrix, i: usize) -> (r: Word)
    requires
        matrix.wf(),
        i < line_count(matrix.dims, false),
    ensures
        r@ == line_of(matrix@, matrix.dims, false, i as int),
{
    line_word(matrix, false, i)
}

/// Overwrites column `i` of the grid with `val`.
pub fn set_matrix(matrix: &mut WordMatrix, i: usize, val: &Word)
    requires
        old(matrix).wf(),
        i < line_count(old(matrix).dims, false),
        val@.len() == line_len(old(matrix).dims, false),
    ensures
        final(matrix).dims == old(matrix).dims,
        final(matrix)@ == with_line(old(matrix)@, old(matrix).dims, false, i as int, val@),
{
    write_line(matrix, false, i, val)
}

/// Which column a cell lies on.
pub fn get_my_index(mi: MatrixIndex) -> (r: usize)
    ensures
        r == mi.col,
{
    mi.col
}

/// The column through a cell.
pub fn get_word_intersecting_point(matrix: &WordMatrix, point: MatrixIndex) -> (r: Word)
    requires
        matrix.wf(),
        point.in_grid(matrix.dims),
    ensures
        r@ == line_of(matrix@, matrix.dims, false, point.col as int),
{
    index_matrix(matrix, get_my_index(point))
}

/// The index of this orientation.
pub fn prefix_map(map: &WordPrefixMap) -> (r: &FnvHashMap<u128, CharSet>)
    ensures
        r@ == map.dim_view(false),
{
    map.cols()
}

/// The part of a (rows, columns) pair that belongs to this orientation.
pub fn index_tuple<T, U>(t: &(U, T)) -> (r: &T)
    ensures
        *r == t.1,
{
    &t.1
}

/// The part of a (rows, columns) pair that belongs to this orientation,
/// to change in place.
pub fn index_tuple_mut<T, U>(t: &mut (U, T)) -> (r: &mut T)
    ensures
        *r == old(t).1,
        *final(t) == (old(t).0, *final(r)),
{
    &mut t.1
}

/// The word, if it is as long as a column.
pub fn get_from_either(e: &EitherWord, d: Dims) -> (r: Option<Word>)
    ensures
        r matches Some(w) ==> w@ == e.spec_word(),
        r is Some <==> e.spec_word().len() == d.height,
{
    e.tall(d)
}

/// The neighbouring cell one column back, if any.
pub fn back(mi: MatrixIndex) -> (r: Option<MatrixIndex>)
    ensures
        r == (if mi.col > 0 {
            Some(MatrixIndex { row: mi.row, col: (mi.col - 1) as usize })
        } else {
            None
        }),
{
    if mi.col > 0 {
        Some(MatrixIndex { row: mi.row, col: mi.col - 1 })
    } else {
        None
    }
}

} // verus!
