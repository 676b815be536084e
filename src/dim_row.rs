//! The rows of a grid, as one of the two orientations.

use vstd::prelude::*;

use fnv::FnvHashMap;

use crate::charset::CharSet;
use crate::matrix::{Dims, line_count, line_len, line_of, line_word, with_line, write_line, MatrixIndex, WordMatrix};
use crate::prefix_map::WordPrefixMap;
use crate::wordstuffs::{EitherWord, Word};

verus! {

/// Row `i` of the grid.
pub fn index_matrix(matrix: &WordMatrix, i: usize) -> (r: Word)
    requires
        matrix.wf(),
        i < line_count(matrix.dims, true),
    ensures
        r@ == line_of(matrix@, matrix.dims, true, i as int),
{
    line_word(matrix, true, i)
}

/// Overwrites row `i` of the grid with `val`.
pub fn set_matrix(matrix: &mut WordMatrix, i: usize, val: &Word)
    requires
        old(matrix).wf(),
        i < line_count(old(matrix).dims, true),
        val@.len() == line_len(old(matrix).dims, true),
    ensures
        final(matrix).dims == old(matrix).dims,
        final(matrix)@ == with_line(old(matrix)@, old(matrix).dims, true, i as int, val@),
{
    write_line(matrix, true, i, val)
}

/// Which row a cell lies on.
pub fn get_my_index(mi: MatrixIndex) -> (r: usize)
    ensures
        r == mi.row,
{
    mi.row
}

/// The row through a cell.
pub fn get_word_intersecting_point(matrix: &WordMatrix, point: MatrixIndex) -> (r: Word)
    requires
        matrix.wf(),
        point.in_grid(matrix.dims),
    ensures
        r@ == line_of(matrix@, matrix.dims, true, point.row as int),
{
    index_matrix(matrix, get_my_index(point))
}

/// The index of this orientation.
pub fn prefix_map(map: &WordPrefixMap) -> (r: &FnvHashMap<u128, CharSet>)
    ensures
        r@ == map.dim_view(true),
{
    map.rows()
}

/// The part of a (rows, columns) pair that belongs to this orientation.
pub fn index_tuple<T, U>(t: &(T, U)) -> (r: &T)
    ensures
        *r == t.0,
{
    &t.0
}

/// The part of a (rows, columns) pair that belongs to this orientation,
/// to change in place.
pub fn index_tuple_mut<T, U>(t: &mut (T, U)) -> (r: &mut T)
    ensures
        *r == old(t).0,
        *final(t) == (*final(r), old(t).1),
{
    &mut t.0
}

/// The word, if it is as long as a row.
pub fn get_from_either(e: &EitherWord, d: Dims) -> (r: Option<Word>)
    ensures
        r matches Some(w) ==> w@ == e.spec_word(),
        r is Some <==> e.spec_word().len() == d.width,
{
    e.wide(d)
}

/// The neighbouring cell one row back, if any.
pub fn back(mi: MatrixIndex) -> (r: Option<MatrixIndex>)
    ensures
        r == (if mi.row > 0 {
            Some(MatrixIndex { row: (mi.row - 1) as usize, col: mi.col })
        } else {
            None
        }),
{
    if mi.row > 0 {
        Some(MatrixIndex { row: mi.row - 1, col: mi.col })
    } else {
        None
    }
}

} // verus!
