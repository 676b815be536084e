use vstd::prelude::*;

use crate::echar::{null_char, EncodedChar};
use crate::wordstuffs::Word;

verus! {

/// The longest side a rectangle may have: a pattern of that many cells
/// packs into a 128-bit key.
pub const MAX_SIDE: usize = 16;

/// Width (row length) and height (column length) of the rectangles sought.
#[derive(Clone, Copy, PartialEq, Eq, Structural, PartialOrd, Ord, Hash, Debug)]
pub struct Dims {
    pub width: usize,
    pub height: usize,
}

impl Dims {
    pub open spec fn wf(self) -> bool {
        1 <= self.width <= MAX_SIDE && 1 <= self.height <= MAX_SIDE
    }

    /// Number of cells in a grid.
    pub open spec fn size(self) -> int {
        self.width * self.height
    }

    /// Dimensions with both sides in `1..=MAX_SIDE`.
    pub fn new(width: usize, height: usize) -> (r: Option<Dims>)
        ensures
            r == (if 1 <= width <= MAX_SIDE && 1 <= height <= MAX_SIDE {
                Some(Dims { width, height })
            } else {
                None
            }),
    {
        if 1 <= width && width <= MAX_SIDE && 1 <= height && height <= MAX_SIDE {
            Some(Dims { width, height })
        } else {
            None
        }
    }

    pub fn cell_count(self) -> (r: usize)
        requires
            self.wf(),
        ensures
            r == self.size(),
    {
        proof {
            lemma_size_bound(self);
        }
        self.width * self.height
    }
}

pub proof fn lemma_size_bound(d: Dims)
    requires
        d.wf(),
    ensures
        1 <= d.size() <= MAX_SIDE * MAX_SIDE,
{
    assert(1 <= d.width * d.height <= 16 * 16) by (nonlinear_arith)
        requires
            1 <= d.width <= 16,
            1 <= d.height <= 16,
    ;
}

/// The flat position of cell (r, c) is inside the grid.
pub proof fn lemma_cell_in_grid(d: Dims, r: int, c: int)
    requires
        d.wf(),
        0 <= r < d.height,
        0 <= c < d.width,
    ensures
        0 <= r * d.width + c < d.size(),
        r * d.width + c < MAX_SIDE * MAX_SIDE,
{
    let (w, h) = (d.width as int, d.height as int);
    assert(0 <= r * w + c < w * h && w * h <= 256) by (nonlinear_arith)
        requires
            0 <= r < h,
            0 <= c < w,
            1 <= w <= 16,
            1 <= h <= 16,
    ;
}

/// Row and column of a flat position.
pub proof fn lemma_flat_split(d: Dims, k: int)
    requires
        d.wf(),
        0 <= k < d.size(),
    ensures
        0 <= k / (d.width as int),
        k / (d.width as int) < d.height,
        0 <= k % (d.width as int),
        k % (d.width as int) < d.width,
        k == (k / (d.width as int)) * d.width + k % (d.width as int),
{
    let w = d.width as int;
    let h = d.height as int;
    vstd::arithmetic::div_mod::lemma_fundamental_div_mod(k, w);
    vstd::arithmetic::div_mod::lemma_mod_bound(k, w);
    vstd::arithmetic::div_mod::lemma_div_pos_is_pos(k, w);
    assert(k / w < h) by {
        vstd::arithmetic::div_mod::lemma_div_is_ordered(k, w * h - 1, w);
        vstd::arithmetic::div_mod::lemma_div_multiples_vanish_fancy(h - 1, w - 1, w);
        assert((h - 1) * w + (w - 1) == w * h - 1) by (nonlinear_arith);
    }
}

/// A cell of a grid, by row and column; ordered row-major.
#[derive(Clone, Copy, PartialEq, Eq, Structural, PartialOrd, Ord, Hash, Debug)]
pub struct MatrixIndex {
    pub row: usize,
    pub col: usize,
}

impl MatrixIndex {
    pub open spec fn in_grid(self, d: Dims) -> bool {
        self.row < d.height && self.col < d.width
    }

    /// Position in row-major order.
    pub open spec fn flat(self, d: Dims) -> int {
        self.row * d.width + self.col
    }

    /// The first cell.
    pub fn zero() -> (r: MatrixIndex)
        ensures
            r == (MatrixIndex { row: 0, col: 0 }),
    {
        MatrixIndex { row: 0, col: 0 }
    }

    pub fn into_flat_index(self, d: Dims) -> (r: usize)
        requires
            d.wf(),
            self.in_grid(d),
        ensures
            r == self.flat(d),
            r < d.size(),
    {
        proof {
            lemma_cell_in_grid(d, self.row as int, self.col as int);
        }
        self.row * d.width + self.col
    }

    /// The next cell in row-major order, if any.
    pub fn inc(self, d: Dims) -> (r: Option<MatrixIndex>)
        requires
            d.wf(),
            self.in_grid(d),
        ensures
            r is Some <==> self.flat(d) + 1 < d.size(),
            r matches Some(n) ==> n.in_grid(d) && n.flat(d) == self.flat(d) + 1,
    {
        proof {
            lemma_cell_in_grid(d, self.row as int, self.col as int);
            lemma_last_row(d, self);
        }
        if self.col + 1 < d.width {
            Some(MatrixIndex { row: self.row, col: self.col + 1 })
        } else if self.row + 1 < d.height {
            let r = MatrixIndex { row: self.row + 1, col: 0 };
            assert(r.flat(d) == self.flat(d) + 1) by (nonlinear_arith)
                requires
                    r.row == self.row + 1,
                    r.col == 0,
                    self.col + 1 == d.width,
                    r.flat(d) == r.row * d.width + r.col,
                    self.flat(d) == self.row * d.width + self.col,
            ;
            Some(r)
        } else {
            None
        }
    }

    /// The previous cell in row-major order, if any.
    pub fn dec(self, d: Dims) -> (r: Option<MatrixIndex>)
        requires
            d.wf(),
            self.in_grid(d),
        ensures
            r is Some <==> self.flat(d) > 0,
            r matches Some(n) ==> n.in_grid(d) && n.flat(d) == self.flat(d) - 1,
    {
        if self.col > 0 {
            Some(MatrixIndex { row: self.row, col: self.col - 1 })
        } else if self.row > 0 {
            let r = MatrixIndex { row: self.row - 1, col: d.width - 1 };
            assert(r.flat(d) == self.flat(d) - 1) by (nonlinear_arith)
                requires
                    r.row == self.row - 1,
                    r.col == d.width - 1,
                    self.col == 0,
                    r.flat(d) == r.row * d.width + r.col,
                    self.flat(d) == self.row * d.width + self.col,
            ;
            Some(r)
        } else {
            assert(self.flat(d) == 0) by (nonlinear_arith)
                requires
                    self.row == 0,
                    self.col == 0,
                    self.flat(d) == self.row * d.width + self.col,
            ;
            None
        }
    }
}

proof fn lemma_last_row(d: Dims, m: MatrixIndex)
    requires
        d.wf(),
        m.in_grid(d),
    ensures
        m.flat(d) + 1 < d.size() <==> (m.col + 1 < d.width || m.row + 1 < d.height),
{
    let (w, h, r, c) = (d.width as int, d.height as int, m.row as int, m.col as int);
    assert(r * w + c + 1 < w * h <==> (c + 1 < w || r + 1 < h)) by (nonlinear_arith)
        requires
            0 <= r < h,
            0 <= c < w,
            1 <= w,
    ;
}

/// Flat position (row-major) of cell (r, c).
pub open spec fn cell_index(d: Dims, r: int, c: int) -> int {
    r * d.width + c
}

/// Row `r` of a grid.
pub open spec fn row_of<T>(m: Seq<T>, d: Dims, r: int) -> Seq<T> {
    Seq::new(d.width as nat, |c: int| m[cell_index(d, r, c)])
}

/// Column `c` of a grid.
pub open spec fn col_of<T>(m: Seq<T>, d: Dims, c: int) -> Seq<T> {
    Seq::new(d.height as nat, |r: int| m[cell_index(d, r, c)])
}

/// Line `i` of a grid: a row when `is_row`, else a column.
pub open spec fn line_of<T>(m: Seq<T>, d: Dims, is_row: bool, i: int) -> Seq<T> {
    if is_row {
        row_of(m, d, i)
    } else {
        col_of(m, d, i)
    }
}

/// How many rows (or columns) a grid has.
pub open spec fn line_count(d: Dims, is_row: bool) -> int {
    if is_row {
        d.height as int
    } else {
        d.width as int
    }
}

/// Length of a row (or of a column).
pub open spec fn line_len(d: Dims, is_row: bool) -> nat {
    if is_row {
        d.width as nat
    } else {
        d.height as nat
    }
}

/// Whether flat position `k` lies on line `i`.
pub open spec fn on_line(d: Dims, is_row: bool, i: int, k: int) -> bool {
    if is_row {
        k / (d.width as int) == i
    } else {
        k % (d.width as int) == i
    }
}

/// Position of flat position `k` within its line.
pub open spec fn pos_in_line(d: Dims, is_row: bool, k: int) -> int {
    if is_row {
        k % (d.width as int)
    } else {
        k / (d.width as int)
    }
}

/// The grid with line `i` overwritten by `w`.
pub open spec fn with_line<T>(m: Seq<T>, d: Dims, is_row: bool, i: int, w: Seq<T>) -> Seq<T> {
    Seq::new(
        m.len(),
        |k: int|
            if on_line(d, is_row, i, k) {
                w[pos_in_line(d, is_row, k)]
            } else {
                m[k]
            },
    )
}

/// A flat position made of (r, c) splits back into r and c.
pub proof fn lemma_flat_unique(d: Dims, r: int, c: int)
    requires
        d.wf(),
        0 <= r < d.height,
        0 <= c < d.width,
    ensures
        cell_index(d, r, c) / (d.width as int) == r,
        cell_index(d, r, c) % (d.width as int) == c,
{
    vstd::arithmetic::div_mod::lemma_fundamental_div_mod_converse(
        cell_index(d, r, c),
        d.width as int,
        r,
        c,
    );
}

/// A grid in row-major order.
#[derive(Clone, Debug, PartialEq, Eq, PartialOrd, Ord, Hash)]
pub struct GenericMatrix<T> {
    pub dims: Dims,
    pub cells: Vec<T>,
}

/// A grid of characters; nulls are free cells.
pub type WordMatrix = GenericMatrix<EncodedChar>;

impl<T> View for GenericMatrix<T> {
    type V = Seq<T>;

    open spec fn view(&self) -> Seq<T> {
        self.cells@
    }
}

impl<T> GenericMatrix<T> {
    pub open spec fn wf(&self) -> bool {
        self.dims.wf() && self.cells@.len() == self.dims.size()
    }
}

impl<T: Copy> GenericMatrix<T> {
    /// A grid with every cell `v`.
    pub fn filled(d: Dims, v: T) -> (r: GenericMatrix<T>)
        requires
            d.wf(),
        ensures
            r.wf(),
            r.dims == d,
            r@ == Seq::new(d.size() as nat, |k: int| v),
    {
        let n = d.cell_count();
        let mut cells: Vec<T> = Vec::new();
        while cells.len() < n
            invariant
                cells.len() <= n,
                cells@ == Seq::new(cells.len() as nat, |k: int| v),
            decreases n - cells.len(),
        {
            cells.push(v);
            assert(cells@ =~= Seq::new(cells.len() as nat, |k: int| v));
        }
        GenericMatrix { dims: d, cells }
    }

    pub fn get(&self, mi: MatrixIndex) -> (r: T)
        requires
            self.wf(),
            mi.in_grid(self.dims),
        ensures
            r == self@[mi.flat(self.dims)],
    {
        self.cells[mi.into_flat_index(self.dims)]
    }

    pub fn set(&mut self, mi: MatrixIndex, v: T)
        requires
            old(self).wf(),
            mi.in_grid(old(self).dims),
        ensures
            final(self).dims == old(self).dims,
            final(self)@ == old(self)@.update(mi.flat(old(self).dims), v),
    {
        let k = mi.into_flat_index(self.dims);
        self.cells.set(k, v);
    }
}

impl GenericMatrix<EncodedChar> {
    /// The all-null grid.
    pub fn nulls(d: Dims) -> (r: WordMatrix)
        requires
            d.wf(),
        ensures
            r.wf(),
            r.dims == d,
            r@ == Seq::new(d.size() as nat, |k: int| null_char()),
    {
        Self::filled(d, EncodedChar::null())
    }

    pub fn copy(&self) -> (r: WordMatrix)
        ensures
            r.dims == self.dims,
            r@ == self@,
    {
        let cells = self.cells.clone();
        assert(cells@ =~= self.cells@);
        GenericMatrix { dims: self.dims, cells }
    }
}

proof fn lemma_line_cell(d: Dims, is_row: bool, i: int, j: int) -> (k: int)
    requires
        d.wf(),
        0 <= i < line_count(d, is_row),
        0 <= j < line_len(d, is_row),
    ensures
        k == (if is_row {
            cell_index(d, i, j)
        } else {
            cell_index(d, j, i)
        }),
        0 <= k < d.size(),
        k < MAX_SIDE * MAX_SIDE,
        on_line(d, is_row, i, k),
        pos_in_line(d, is_row, k) == j,
{
    if is_row {
        lemma_cell_in_grid(d, i, j);
        lemma_flat_unique(d, i, j);
        cell_index(d, i, j)
    } else {
        lemma_cell_in_grid(d, j, i);
        lemma_flat_unique(d, j, i);
        cell_index(d, j, i)
    }
}

/// Line `i` of the grid as a word: a row when `is_row`, else a column.
pub fn line_word(m: &WordMatrix, is_row: bool, i: usize) -> (r: Word)
    requires
        m.wf(),
        i < line_count(m.dims, is_row),
    ensures
        r@ == line_of(m@, m.dims, is_row, i as int),
{
    let d = m.dims;
    let n = if is_row {
        d.width
    } else {
        d.height
    };
    let mut v: Vec<EncodedChar> = Vec::new();
    for j in 0..n
        invariant
            m.wf(),
            d == m.dims,
            n == line_len(d, is_row),
            i < line_count(d, is_row),
            v@.len() == j,
            forall|jj: int| 0 <= jj < j ==> v@[jj] == #[trigger] line_of(m@, d, is_row, i as int)[jj],
    {
        let ghost k = lemma_line_cell(d, is_row, i as int, j as int);
        let idx = if is_row {
            i * d.width + j
        } else {
            j * d.width + i
        };
        v.push(m.cells[idx]);
    }
    assert(v@ =~= line_of(m@, d, is_row, i as int));
    Word(v)
}

/// Overwrites line `i` of the grid with `w`.
pub fn write_line(m: &mut WordMatrix, is_row: bool, i: usize, w: &Word)
    requires
        old(m).wf(),
        i < line_count(old(m).dims, is_row),
        w@.len() == line_len(old(m).dims, is_row),
    ensures
        final(m).dims == old(m).dims,
        final(m)@ == with_line(old(m)@, old(m).dims, is_row, i as int, w@),
{
    let d = m.dims;
    let ghost orig = m@;
    let n = if is_row {
        d.width
    } else {
        d.height
    };
    for j in 0..n
        invariant
            m.wf(),
            d == m.dims,
            d.wf(),
            orig.len() == d.size(),
            n == line_len(d, is_row),
            i < line_count(d, is_row),
            w@.len() == n,
            forall|k: int|
                0 <= k < d.size() ==> #[trigger] m@[k] == (if on_line(d, is_row, i as int, k)
                    && pos_in_line(d, is_row, k) < j {
                    w@[pos_in_line(d, is_row, k)]
                } else {
                    orig[k]
                }),
    {
        let ghost k0 = lemma_line_cell(d, is_row, i as int, j as int);
        let idx = if is_row {
            i * d.width + j
        } else {
            j * d.width + i
        };
        let ghost before = m@;
        m.cells.set(idx, w.0[j]);
        assert forall|k: int| 0 <= k < d.size() implies #[trigger] m@[k] == (if on_line(
            d,
            is_row,
            i as int,
            k,
        ) && pos_in_line(d, is_row, k) < j + 1 {
            w@[pos_in_line(d, is_row, k)]
        } else {
            orig[k]
        }) by {
            if k != k0 {
                lemma_flat_split(d, k);
                assert(before[k] == m@[k]);
                if on_line(d, is_row, i as int, k) && pos_in_line(d, is_row, k) == j {
                    let r = k / (d.width as int);
                    let c = k % (d.width as int);
                    assert(k == cell_index(d, r, c));
                }
            }
        }
    }
    assert forall|k: int| 0 <= k < d.size() implies #[trigger] m@[k] == with_line(
        orig,
        d,
        is_row,
        i as int,
        w@,
    )[k] by {
        lemma_flat_split(d, k);
    }
    assert(m@ =~= with_line(orig, d, is_row, i as int, w@));
}

} // verus!
