use vstd::prelude::*;

use crate::charset::{lemma_singleton, singleton, CharSet};
use crate::echar::{null_char, spec_inc, EncodedChar, CHAR_SET_SIZE, NULL_CODE};
use crate::matrix::{
    col_of, lemma_flat_unique, line_word, row_of, Dims, MatrixIndex, WordMatrix,
};
use crate::prefix_map::{lookup, WordPrefixMap};
use crate::wordstuffs::word_wf;

verus! {

/// What a search works on: the index of each orientation, the starting
/// grid (null cells are free) and the last cell (flat position) the search
/// fills.
pub struct SearchSpace {
    pub rows: Map<u128, CharSet>,
    pub cols: Map<u128, CharSet>,
    pub dims: Dims,
    pub orig: Seq<EncodedChar>,
    pub target: int,
}

/// The search space of `compute(prefix_map, orig, target)`.
pub open spec fn search_space(prefix_map: &WordPrefixMap, orig: &WordMatrix, target: MatrixIndex) -> SearchSpace {
    SearchSpace {
        rows: prefix_map.rows_view(),
        cols: prefix_map.cols_view(),
        dims: orig.dims,
        orig: orig@,
        target: target.flat(orig.dims),
    }
}

pub open spec fn grids_view(v: Seq<WordMatrix>) -> Seq<Seq<EncodedChar>> {
    v.map_values(|m: WordMatrix| m@)
}

impl SearchSpace {
    /// `g` before position `k`, the starting grid from `k` on.
    pub open spec fn fill(self, g: Seq<EncodedChar>, k: int) -> Seq<EncodedChar> {
        Seq::new(self.orig.len(), |j: int| if j < k { g[j] } else { self.orig[j] })
    }

    /// The letters allowed at position `k` once the cells before it hold
    /// what `g` holds: a fixed cell allows its own letter; a free cell allows
    /// what the row index and the column index both give for the row and
    /// the column through it.
    pub open spec fn cand(self, g: Seq<EncodedChar>, k: int) -> CharSet {
        if self.orig[k] != null_char() {
            singleton(self.orig[k].0)
        } else {
            let f = self.fill(g, k);
            let w = self.dims.width as int;
            lookup(self.rows, row_of(f, self.dims, k / w)).spec_and(
                lookup(self.cols, col_of(f, self.dims, k % w)),
            )
        }
    }

    /// The completed grids, in order, with position `k` holding a letter
    /// from `c` on and the positions before `k` as in `g`.
    pub open spec fn enum_cell(self, g: Seq<EncodedChar>, k: int, c: int) -> Seq<Seq<EncodedChar>>
        decreases self.target + 1 - k, 32 - c,
    {
        if k < 0 || k > self.target || c < 0 || c >= 32 {
            Seq::empty()
        } else {
            let here = if self.cand(g, k).contains(c as u8) {
                self.enum_from(g.update(k, EncodedChar(c as u8)), k + 1)
            } else {
                Seq::empty()
            };
            here + self.enum_cell(g, k, c + 1)
        }
    }

    /// The completed grids, in order, that keep the positions of `g`
    /// before `k`.
    pub open spec fn enum_from(self, g: Seq<EncodedChar>, k: int) -> Seq<Seq<EncodedChar>>
        decreases self.target + 1 - k, 33int,
    {
        if k < 0 || k > self.target {
            seq![g]
        } else {
            self.enum_cell(g, k, 0)
        }
    }

    /// Every grid the search emits, in order.
    pub open spec fn results(self) -> Seq<Seq<EncodedChar>> {
        self.enum_from(self.orig, 0)
    }

    /// Loop iterations `enum_cell` takes (one per letter tried, one to
    /// step back).
    pub open spec fn steps_cell(self, g: Seq<EncodedChar>, k: int, c: int) -> nat
        decreases self.target + 1 - k, 32 - c,
    {
        if k < 0 || k > self.target {
            0
        } else if c < 0 || c >= 32 {
            1
        } else {
            let here = if self.cand(g, k).contains(c as u8) && k < self.target {
                self.steps_from(g.update(k, EncodedChar(c as u8)), k + 1)
            } else {
                0
            };
            1 + here + self.steps_cell(g, k, c + 1)
        }
    }

    pub open spec fn steps_from(self, g: Seq<EncodedChar>, k: int) -> nat
        decreases self.target + 1 - k, 33int,
    {
        if k < 0 || k > self.target {
            0
        } else {
            self.steps_cell(g, k, 0)
        }
    }

    /// What is left to emit at the levels before `k` (deepest first).
    pub open spec fn above(self, m: Seq<EncodedChar>, k: int) -> Seq<Seq<EncodedChar>>
        decreases k,
    {
        if k <= 0 {
            Seq::empty()
        } else {
            self.enum_cell(self.fill(m, k), k - 1, m[k - 1].0 + 1) + self.above(m, k - 1)
        }
    }

    pub open spec fn above_steps(self, m: Seq<EncodedChar>, k: int) -> nat
        decreases k,
    {
        if k <= 0 {
            0
        } else {
            self.steps_cell(self.fill(m, k), k - 1, m[k - 1].0 + 1) + self.above_steps(m, k - 1)
        }
    }

    /// The cells before `k` are committed: each holds a letter and its
    /// legal set is recorded.
    pub open spec fn committed(self, m: Seq<EncodedChar>, ns: Seq<bool>, cs: Seq<CharSet>, k: int) -> bool {
        forall|j: int| 0 <= j < k ==> !#[trigger] ns[j] && m[j].is_letter() && cs[j] == self.cand(m, j)
    }

    /// What is left to emit from a loop state at position `k`.
    pub open spec fn pending(self, m: Seq<EncodedChar>, fresh: bool, k: int) -> Seq<Seq<EncodedChar>> {
        (if fresh {
            self.enum_cell(m, k, 0)
        } else {
            self.enum_cell(m, k, m[k].0 + 1)
        }) + self.above(m, k)
    }

    pub open spec fn pending_steps(self, m: Seq<EncodedChar>, fresh: bool, k: int) -> nat {
        (if fresh {
            self.steps_cell(m, k, 0)
        } else {
            self.steps_cell(m, k, m[k].0 + 1)
        }) + self.above_steps(m, k)
    }
}

/// `cand` reads only the positions before `k`.
proof fn lemma_cand_prefix(sp: SearchSpace, g1: Seq<EncodedChar>, g2: Seq<EncodedChar>, k: int)
    requires
        forall|j: int| 0 <= j < k ==> g1[j] == g2[j],
    ensures
        sp.fill(g1, k) == sp.fill(g2, k),
        sp.cand(g1, k) == sp.cand(g2, k),
{
    assert(sp.fill(g1, k) =~= sp.fill(g2, k));
}

/// `enum_cell` and `steps_cell` ignore what `g` holds at `k` itself.
proof fn lemma_cell_ignores_own(
    sp: SearchSpace,
    g1: Seq<EncodedChar>,
    g2: Seq<EncodedChar>,
    k: int,
    c: int,
)
    requires
        0 <= k < g1.len(),
        g1.len() == g2.len(),
        forall|j: int| 0 <= j < g1.len() && j != k ==> g1[j] == g2[j],
    ensures
        sp.enum_cell(g1, k, c) == sp.enum_cell(g2, k, c),
        sp.steps_cell(g1, k, c) == sp.steps_cell(g2, k, c),
    decreases 32 - c,
{
    if 0 <= c < 32 && k <= sp.target {
        lemma_cand_prefix(sp, g1, g2, k);
        let e = EncodedChar(c as u8);
        assert(g1.update(k, e) =~= g2.update(k, e));
        lemma_cell_ignores_own(sp, g1, g2, k, c + 1);
    }
}

/// `above` reads only the positions before `k`.
proof fn lemma_above_prefix(sp: SearchSpace, m1: Seq<EncodedChar>, m2: Seq<EncodedChar>, k: int)
    requires
        forall|j: int| 0 <= j < k ==> m1[j] == m2[j],
    ensures
        sp.above(m1, k) == sp.above(m2, k),
        sp.above_steps(m1, k) == sp.above_steps(m2, k),
    decreases k,
{
    if k > 0 {
        assert(sp.fill(m1, k) =~= sp.fill(m2, k));
        lemma_above_prefix(sp, m1, m2, k - 1);
    }
}

/// A letter outside `cand` adds nothing.
proof fn lemma_cell_skip(sp: SearchSpace, g: Seq<EncodedChar>, k: int, c: int)
    requires
        0 <= k <= sp.target,
        0 <= c < 32,
        !sp.cand(g, k).contains(c as u8),
    ensures
        sp.enum_cell(g, k, c) == sp.enum_cell(g, k, c + 1),
{
    assert(sp.enum_cell(g, k, c) =~= Seq::<Seq<EncodedChar>>::empty() + sp.enum_cell(g, k, c + 1));
}

/// Trying letters from a later one takes no more steps.
proof fn lemma_steps_monotone(sp: SearchSpace, g: Seq<EncodedChar>, k: int, c1: int, c2: int)
    requires
        0 <= c1 <= c2,
    ensures
        sp.steps_cell(g, k, c2) <= sp.steps_cell(g, k, c1),
    decreases c2 - c1,
{
    if c1 < c2 {
        lemma_steps_monotone(sp, g, k, c1 + 1, c2);
    }
}

/// The cell-by-cell backtracking search. Starting from `orig_matrix`, it
/// fills the cells up to `target_idx` in row-major order, trying letters in
/// code order at each free cell and keeping one only if both the row index
/// and the column index allow it there; fixed cells keep their letter. Each
/// time the target cell is filled, the grid is emitted.
#[verifier::rlimit(100)]
#[verifier::spinoff_prover]
pub fn compute(prefix_map: &WordPrefixMap, orig_matrix: &WordMatrix, target_idx: MatrixIndex) -> (r:
    Vec<WordMatrix>)
    requires
        orig_matrix.wf(),
        word_wf(orig_matrix@),
        target_idx.in_grid(orig_matrix.dims),
    ensures
        grids_view(r@) == search_space(prefix_map, orig_matrix, target_idx).results(),
        forall|i: int| 0 <= i < r@.len() ==> (#[trigger] r@[i]).dims == orig_matrix.dims,
{
    let d = orig_matrix.dims;
    let n = d.cell_count();
    let t = target_idx.into_flat_index(d);
    let ghost sp = search_space(prefix_map, orig_matrix, target_idx);
    let mut charsets: Vec<CharSet> = Vec::new();
    for j in 0..n
        invariant
            n == orig_matrix@.len(),
            word_wf(orig_matrix@),
            charsets@.len() == j,
            forall|i: int|
                0 <= i < j ==> #[trigger] charsets@[i] == (if orig_matrix@[i] != null_char() {
                    singleton(orig_matrix@[i].0)
                } else {
                    CharSet(0)
                }),
    {
        let e = orig_matrix.cells[j];
        let mut cs = CharSet(0);
        if e.0 != NULL_CODE {
            assert(orig_matrix@[j as int].wf());
            cs.set(e);
            let c = e.0;
            assert(0u32 | (1u32 << c) == 1u32 << c) by (bit_vector);
        }
        charsets.push(cs);
    }
    let mut nullish: Vec<bool> = Vec::new();
    while nullish.len() < n
        invariant
            nullish.len() <= n,
            forall|i: int| 0 <= i < nullish@.len() ==> #[trigger] nullish@[i],
        decreases n - nullish.len(),
    {
        nullish.push(true);
    }
    let mut matrix = orig_matrix.copy();
    let mut results: Vec<WordMatrix> = Vec::new();
    let mut at = MatrixIndex::zero();
    let mut k: usize = 0;
    proof {
        assert(grids_view(results@) =~= Seq::<Seq<EncodedChar>>::empty());
        assert(sp.results() == sp.enum_cell(sp.orig, 0, 0));
        assert(sp.pending(matrix@, true, 0) =~= sp.enum_cell(sp.orig, 0, 0));
    }
    loop
        invariant
            d == orig_matrix.dims,
            d.wf(),
            n == d.size(),
            t == sp.target,
            sp == search_space(prefix_map, orig_matrix, target_idx),
            sp.orig == orig_matrix@,
            sp.dims == d,
            word_wf(sp.orig),
            sp.orig.len() == n,
            at.in_grid(d),
            target_idx.in_grid(d),
            t == target_idx.flat(d),
            k == at.flat(d),
            k <= t,
            t < n,
            matrix.dims == d,
            matrix@.len() == n,
            charsets@.len() == n,
            nullish@.len() == n,
            forall|j: int| k < j < n ==> #[trigger] matrix@[j] == sp.orig[j] && nullish@[j],
            sp.committed(matrix@, nullish@, charsets@, k as int),
            forall|j: int|
                0 <= j < n && sp.orig[j] != null_char() ==> #[trigger] charsets@[j] == singleton(
                    sp.orig[j].0,
                ),
            nullish@[k as int] ==> matrix@[k as int] == sp.orig[k as int],
            !nullish@[k as int] ==> matrix@[k as int].is_letter() && charsets@[k as int]
                == sp.cand(matrix@, k as int),
            sp.results() == grids_view(results@) + sp.pending(matrix@, nullish@[k as int], k as int),
            forall|i: int| 0 <= i < results@.len() ==> (#[trigger] results@[i]).dims == d,
        decreases sp.pending_steps(matrix@, nullish@[k as int], k as int),
    {
        let ghost m0 = matrix@;
        let ghost n0 = nullish@;
        let ghost cs0 = charsets@;
        let ghost fresh0 = nullish@[k as int];
        let ghost steps0 = sp.pending_steps(m0, fresh0, k as int);
        let orig_here = orig_matrix.cells[k];
        if nullish[k] && orig_here.0 == NULL_CODE {
            proof {
                lemma_flat_unique(d, at.row as int, at.col as int);
                assert(sp.fill(matrix@, k as int) =~= matrix@);
            }
            let row_set = prefix_map.get(true, &line_word(&matrix, true, at.row));
            let col_set = prefix_map.get(false, &line_word(&matrix, false, at.col));
            charsets.set(k, row_set.and(col_set));
        }
        // the letter tried at this cell now
        let ghost mut first: int = 0;
        if orig_here.0 == NULL_CODE || !nullish[k] {
            match matrix.cells[k].inc() {
                Some(e) => {
                    proof {
                        first = e.0 as int;
                    }
                    matrix.cells.set(k, e);
                },
                None => {
                    matrix.cells.set(k, orig_here);
                    nullish.set(k, true);
                    proof {
                        assert(m0[k as int].0 == 31);
                    }
                    match at.dec(d) {
                        Some(i) => {
                            proof {
                                let m1 = matrix@;
                                assert(m1 =~= sp.fill(m0, k as int));
                                lemma_above_prefix(sp, m0, m1, k - 1);
                                lemma_cand_prefix(sp, m0, m1, k - 1);
                                assert forall|j: int| 0 <= j < k - 1 implies !#[trigger] nullish@[j]
                                    && matrix@[j].is_letter() && charsets@[j] == sp.cand(matrix@, j) by {
                                    lemma_cand_prefix(sp, m0, m1, j);
                                    assert(nullish@[j] == n0[j]);
                                    assert(matrix@[j] == m0[j]);
                                    assert(charsets@[j] == cs0[j]);
                                }
                                assert(sp.enum_cell(m0, k as int, 32) =~= Seq::<Seq<EncodedChar>>::empty());
                                assert(sp.pending(m0, false, k as int) =~= sp.above(m0, k as int));
                                assert(sp.pending(m1, false, k - 1) =~= sp.above(m0, k as int));
                                assert forall|j: int| k - 1 < j < n implies #[trigger] matrix@[j]
                                    == sp.orig[j] && nullish@[j] by {
                                    if j != k {
                                        assert(matrix@[j] == m0[j]);
                                        assert(nullish@[j] == n0[j]);
                                    }
                                }
                            }
                            at = i;
                            k = k - 1;
                        },
                        None => {
                            proof {
                                assert(sp.enum_cell(m0, k as int, 32) =~= Seq::<Seq<EncodedChar>>::empty());
                                assert(sp.pending(m0, false, 0) =~= Seq::<Seq<EncodedChar>>::empty());
                                assert(grids_view(results@) + Seq::<Seq<EncodedChar>>::empty() =~= grids_view(results@));
                            }
                            return results;
                        },
                    }
                    continue;
                },
            }
        } else {
            proof {
                first = orig_here.0 as int;
            }
        }
        let ghost v = first;
        proof {
            // the letter tried is `first`, and nothing before it was skipped
            if fresh0 && sp.orig[k as int] != null_char() {
                assert(sp.orig[k as int].wf());
                lemma_skip_below_fixed(sp, m0, k as int, 0, v);
                lemma_steps_monotone(sp, m0, k as int, 0, v);
            }
            assert(0 <= v < 32);
            assert(sp.pending(m0, fresh0, k as int) == sp.enum_cell(m0, k as int, v) + sp.above(m0, k as int));
            assert(steps0 >= sp.steps_cell(m0, k as int, v) + sp.above_steps(m0, k as int));
            assert(matrix@ =~= m0.update(k as int, EncodedChar(v as u8)));
            if fresh0 && sp.orig[k as int] == null_char() {
                lemma_flat_unique(d, at.row as int, at.col as int);
                assert(sp.fill(m0, k as int) =~= m0);
                assert(charsets@[k as int] == sp.cand(m0, k as int));
            }
            lemma_cand_prefix(sp, m0, matrix@, k as int);
            lemma_cell_ignores_own(sp, m0, matrix@, k as int, v + 1);
            lemma_above_prefix(sp, m0, matrix@, k as int);
            assert forall|j: int| 0 <= j < k implies sp.cand(matrix@, j) == sp.cand(m0, j) by {
                lemma_cand_prefix(sp, m0, matrix@, j);
            }
        }
        nullish.set(k, false);
        let ghost m1 = matrix@;
        proof {
            assert(charsets@[k as int] == sp.cand(m1, k as int));
            assert forall|j: int| 0 <= j <= k implies !#[trigger] nullish@[j] && matrix@[j].is_letter()
                && charsets@[j] == sp.cand(matrix@, j) by {
                if j < k {
                    assert(nullish@[j] == n0[j]);
                    assert(matrix@[j] == m0[j]);
                    assert(charsets@[j] == cs0[j]);
                }
            }
            assert forall|j: int| k < j < n implies #[trigger] matrix@[j] == sp.orig[j] && nullish@[j] by {
                assert(nullish@[j] == n0[j]);
                assert(matrix@[j] == m0[j]);
            }
            assert(sp.committed(matrix@, nullish@, charsets@, k as int));
            assert(sp.committed(matrix@, nullish@, charsets@, k + 1));
            assert(sp.steps_cell(m0, k as int, v) == 1 + (if sp.cand(m0, k as int).contains(v as u8)
                && k < sp.target {
                sp.steps_from(m1, k + 1)
            } else {
                0
            }) + sp.steps_cell(m0, k as int, v + 1));
        }
        if charsets[k].has(matrix.cells[k]) {
            if at.row == target_idx.row && at.col == target_idx.col {
                proof {
                    assert(k == t);
                    assert(sp.enum_from(m1, k + 1) =~= seq![m1]);
                }
                let ghost before = results@;
                results.push(matrix.copy());
                proof {
                    assert(grids_view(results@) =~= grids_view(before).push(m1));
                    assert(sp.enum_cell(m0, k as int, v) == seq![m1] + sp.enum_cell(m0, k as int, v + 1));
                    assert(sp.results() =~= grids_view(results@) + sp.pending(m1, false, k as int));
                    assert(sp.pending_steps(m1, false, k as int) < steps0);
                }
            } else {
                proof {
                    lemma_flat_unique(d, at.row as int, at.col as int);
                    lemma_flat_unique(d, target_idx.row as int, target_idx.col as int);
                    assert(k < t);
                }
                match at.inc(d) {
                    Some(i) => {
                        proof {
                            assert(sp.fill(m1, k + 1) =~= m1);
                            assert(sp.above(m1, k + 1) == sp.enum_cell(m1, k as int, v + 1) + sp.above(m1, k as int));
                            assert(sp.above_steps(m1, k + 1) == sp.steps_cell(m1, k as int, v + 1) + sp.above_steps(m1, k as int));
                            assert(sp.enum_from(m1, k + 1) == sp.enum_cell(m1, k + 1, 0));
                            assert(sp.enum_cell(m0, k as int, v) == sp.enum_cell(m1, k + 1, 0) + sp.enum_cell(m0, k as int, v + 1));
                            assert(sp.pending(m1, true, k + 1) =~= sp.enum_cell(m1, k + 1, 0) + (sp.enum_cell(m0, k as int, v + 1) + sp.above(m0, k as int)));
                            assert(sp.steps_from(m1, k + 1) == sp.steps_cell(m1, k + 1, 0));
                            assert(sp.pending_steps(m1, true, k + 1) < steps0);
                        }
                        at = i;
                        k = k + 1;
                    },
                    None => {
                        return results;
                    },
                }
            }
        } else {
            proof {
                lemma_cell_skip(sp, m0, k as int, v);
                assert(sp.pending_steps(m1, false, k as int) < steps0);
            }
        }
    }
}

/// At a fixed cell no letter before its own is allowed.
proof fn lemma_skip_below_fixed(sp: SearchSpace, g: Seq<EncodedChar>, k: int, c: int, v: int)
    requires
        0 <= k <= sp.target,
        0 <= k < sp.orig.len(),
        sp.orig[k] != null_char(),
        v == sp.orig[k].0,
        v < CHAR_SET_SIZE,
        0 <= c <= v,
    ensures
        sp.enum_cell(g, k, c) == sp.enum_cell(g, k, v),
    decreases v - c,
{
    if c < v {
        lemma_singleton(v as u8, c as u8);
        lemma_cell_skip(sp, g, k, c);
        lemma_skip_below_fixed(sp, g, k, c + 1, v);
    }
}

/// `g` agrees with the starting grid on its fixed cells, holds letters
/// before `k` and the starting grid from `k` on.
pub open spec fn shaped(sp: SearchSpace, g: Seq<EncodedChar>, k: int) -> bool {
    &&& g.len() == sp.orig.len()
    &&& forall|j: int| 0 <= j < k ==> (#[trigger] g[j]).is_letter()
    &&& forall|j: int| 0 <= j < g.len() && sp.orig[j] != null_char() ==> #[trigger] g[j] == sp.orig[j]
    &&& forall|j: int| k <= j < g.len() ==> #[trigger] g[j] == sp.orig[j]
}

spec fn enum_any(sp: SearchSpace, g: Seq<EncodedChar>, k: int, c: int, from: bool) -> Seq<
    Seq<EncodedChar>,
> {
    if from {
        sp.enum_from(g, k)
    } else {
        sp.enum_cell(g, k, c)
    }
}

proof fn lemma_enum_shape(sp: SearchSpace, g: Seq<EncodedChar>, k: int, c: int, from: bool)
    requires
        0 <= k,
        k <= sp.target + 1,
        sp.target < sp.orig.len(),
        word_wf(sp.orig),
        shaped(sp, g, k),
    ensures
        forall|i: int|
            0 <= i < enum_any(sp, g, k, c, from).len() ==> shaped(
                sp,
                #[trigger] enum_any(sp, g, k, c, from)[i],
                sp.target + 1,
            ),
    decreases sp.target + 1 - k, if from {
        33
    } else {
        32 - c
    },
{
    if from {
        if k > sp.target {
            assert(sp.enum_from(g, k) == seq![g]);
        } else {
            lemma_enum_shape(sp, g, k, 0, false);
            assert(enum_any(sp, g, k, c, true) == enum_any(sp, g, k, 0, false));
        }
    } else if 0 <= c < 32 && k <= sp.target {
        let e = EncodedChar(c as u8);
        let here = if sp.cand(g, k).contains(c as u8) {
            sp.enum_from(g.update(k, e), k + 1)
        } else {
            Seq::empty()
        };
        if sp.cand(g, k).contains(c as u8) {
            if sp.orig[k] != null_char() {
                assert(sp.orig[k].wf());
                lemma_singleton(sp.orig[k].0, c as u8);
            }
            assert(shaped(sp, g.update(k, e), k + 1));
            lemma_enum_shape(sp, g.update(k, e), k + 1, 0, true);
            assert(here == enum_any(sp, g.update(k, e), k + 1, 0, true));
        }
        lemma_enum_shape(sp, g, k, c + 1, false);
        assert(sp.enum_cell(g, k, c + 1) == enum_any(sp, g, k, c + 1, false));
        let all = sp.enum_cell(g, k, c);
        assert(all == here + sp.enum_cell(g, k, c + 1));
        assert forall|i: int| 0 <= i < all.len() implies shaped(sp, #[trigger] all[i], sp.target + 1) by {
            if i < here.len() {
                assert(all[i] == here[i]);
            } else {
                assert(all[i] == sp.enum_cell(g, k, c + 1)[i - here.len()]);
            }
        }
    }
}

proof fn lemma_enum_agree(sp1: SearchSpace, sp2: SearchSpace, g: Seq<EncodedChar>, k: int, c: int, from: bool)
    requires
        sp1.orig == sp2.orig,
        sp1.target == sp2.target,
        sp1.target < sp1.orig.len(),
        word_wf(sp1.orig),
        0 <= k <= sp1.target + 1,
        shaped(sp1, g, k),
        forall|h: Seq<EncodedChar>, kk: int, cc: u8|
            0 <= kk <= sp1.target && shaped(sp1, h, kk) ==> #[trigger] sp1.cand(h, kk).contains(cc)
                == sp2.cand(h, kk).contains(cc),
    ensures
        enum_any(sp1, g, k, c, from) == enum_any(sp2, g, k, c, from),
    decreases sp1.target + 1 - k, if from {
        33
    } else {
        32 - c
    },
{
    if from {
        if k <= sp1.target {
            lemma_enum_agree(sp1, sp2, g, k, 0, false);
        }
    } else if 0 <= c < 32 && k <= sp1.target {
        let e = EncodedChar(c as u8);
        assert(sp1.cand(g, k).contains(c as u8) == sp2.cand(g, k).contains(c as u8));
        if sp1.cand(g, k).contains(c as u8) {
            if sp1.orig[k] != null_char() {
                assert(sp1.orig[k].wf());
                lemma_singleton(sp1.orig[k].0, c as u8);
            }
            assert(shaped(sp1, g.update(k, e), k + 1));
            lemma_enum_agree(sp1, sp2, g.update(k, e), k + 1, 0, true);
        }
        lemma_enum_agree(sp1, sp2, g, k, c + 1, false);
    }
}

/// Two searches over the same grid and target whose legal sets agree on
/// every letter, at every state the search can reach, emit the same grids.
pub proof fn lemma_results_agree(sp1: SearchSpace, sp2: SearchSpace)
    requires
        sp1.orig == sp2.orig,
        sp1.target == sp2.target,
        0 <= sp1.target < sp1.orig.len(),
        word_wf(sp1.orig),
        forall|h: Seq<EncodedChar>, kk: int, cc: u8|
            0 <= kk <= sp1.target && shaped(sp1, h, kk) ==> #[trigger] sp1.cand(h, kk).contains(cc)
                == sp2.cand(h, kk).contains(cc),
    ensures
        sp1.results() == sp2.results(),
{
    assert(shaped(sp1, sp1.orig, 0));
    lemma_enum_agree(sp1, sp2, sp1.orig, 0, 0, true);
    assert(sp1.results() == enum_any(sp1, sp1.orig, 0, 0, true));
    assert(sp2.results() == enum_any(sp2, sp2.orig, 0, 0, true));
}

/// Two sequences without repeats, with no element in common, join into
/// one without repeats.
pub proof fn lemma_no_dup_concat<A>(a: Seq<A>, b: Seq<A>)
    requires
        a.no_duplicates(),
        b.no_duplicates(),
        forall|i: int, j: int| 0 <= i < a.len() && 0 <= j < b.len() ==> a[i] != b[j],
    ensures
        (a + b).no_duplicates(),
{
    let s = a + b;
    assert forall|i: int, j: int| 0 <= i < s.len() && 0 <= j < s.len() && i != j implies s[i] != s[j] by {
        if i < a.len() && j >= a.len() {
            assert(s[j] == b[j - a.len()]);
        } else if j < a.len() && i >= a.len() {
            assert(s[i] == b[i - a.len()]);
        } else if i >= a.len() {
            assert(s[i] == b[i - a.len()] && s[j] == b[j - a.len()]);
        }
    }
}

proof fn lemma_enum_distinct(sp: SearchSpace, g: Seq<EncodedChar>, k: int, c: int, from: bool)
    requires
        0 <= k <= sp.target + 1,
        sp.target < sp.orig.len(),
        shaped(sp, g, k),
    ensures
        enum_any(sp, g, k, c, from).no_duplicates(),
        forall|i: int, j: int|
            0 <= i < enum_any(sp, g, k, c, from).len() && 0 <= j < k ==> #[trigger] enum_any(sp, g, k, c, from)[i][j]
                == g[j],
        !from && k <= sp.target ==> forall|i: int|
            0 <= i < enum_any(sp, g, k, c, from).len() ==> #[trigger] enum_any(sp, g, k, c, from)[i][k].0 >= c,
    decreases sp.target + 1 - k, if from {
        33
    } else {
        32 - c
    },
{
    if from {
        if k > sp.target {
            assert(enum_any(sp, g, k, c, from) == seq![g]);
        } else {
            lemma_enum_distinct(sp, g, k, 0, false);
            assert(enum_any(sp, g, k, c, true) == enum_any(sp, g, k, 0, false));
        }
    } else if 0 <= c < 32 && k <= sp.target {
        let e = EncodedChar(c as u8);
        let here = if sp.cand(g, k).contains(c as u8) {
            sp.enum_from(g.update(k, e), k + 1)
        } else {
            Seq::empty()
        };
        let rest = sp.enum_cell(g, k, c + 1);
        lemma_enum_distinct(sp, g, k, c + 1, false);
        assert(rest == enum_any(sp, g, k, c + 1, false));
        if sp.cand(g, k).contains(c as u8) {
            if sp.orig[k] != null_char() {
                assert(sp.cand(g, k) == singleton(sp.orig[k].0));
            }
            assert(g.update(k, e).len() == sp.orig.len());
            lemma_enum_distinct_shape(sp, g, k, c);
            lemma_enum_distinct(sp, g.update(k, e), k + 1, 0, true);
            assert(here == enum_any(sp, g.update(k, e), k + 1, 0, true));
            assert forall|i: int| 0 <= i < here.len() implies #[trigger] here[i][k] == e by {
                assert(here[i][k] == g.update(k, e)[k]);
            }
        }
        assert forall|i: int, j: int| 0 <= i < here.len() && 0 <= j < rest.len() implies here[i] != rest[j] by {
            assert(here[i][k] == e);
            assert(rest[j][k].0 >= c + 1);
        }
        lemma_no_dup_concat(here, rest);
        let all = sp.enum_cell(g, k, c);
        assert(all == here + rest);
        assert forall|i: int, j: int| 0 <= i < all.len() && 0 <= j < k implies #[trigger] all[i][j] == g[j] by {
            if i < here.len() {
                assert(all[i] == here[i]);
                assert(here[i][j] == g.update(k, e)[j]);
            } else {
                assert(all[i] == rest[i - here.len()]);
            }
        }
        assert forall|i: int| 0 <= i < all.len() implies #[trigger] all[i][k].0 >= c by {
            if i < here.len() {
                assert(all[i] == here[i]);
            } else {
                assert(all[i] == rest[i - here.len()]);
            }
        }
    } else {
        assert(enum_any(sp, g, k, c, from) =~= Seq::<Seq<EncodedChar>>::empty());
    }
}

proof fn lemma_enum_distinct_shape(sp: SearchSpace, g: Seq<EncodedChar>, k: int, c: int)
    requires
        0 <= k <= sp.target,
        sp.target < sp.orig.len(),
        0 <= c < 32,
        shaped(sp, g, k),
        sp.cand(g, k).contains(c as u8),
        sp.orig[k] != null_char() ==> sp.cand(g, k) == singleton(sp.orig[k].0),
    ensures
        shaped(sp, g.update(k, EncodedChar(c as u8)), k + 1),
{
    if sp.orig[k] != null_char() {
        if sp.orig[k].0 < CHAR_SET_SIZE {
            lemma_singleton(sp.orig[k].0, c as u8);
        } else {
            assert(!singleton(sp.orig[k].0).contains(c as u8)) by {
                let x = sp.orig[k].0;
                let cc = c as u8;
                assert(((1u32 << x) >> cc) & 1u32 != 1u32) by (bit_vector)
                    requires
                        x >= 32,
                        cc < 32,
                ;
            }
        }
    }
}

/// The search never emits the same grid twice.
pub proof fn lemma_results_distinct(sp: SearchSpace)
    requires
        0 <= sp.target < sp.orig.len(),
    ensures
        sp.results().no_duplicates(),
{
    assert(shaped(sp, sp.orig, 0));
    lemma_enum_distinct(sp, sp.orig, 0, 0, true);
    assert(sp.results() == enum_any(sp, sp.orig, 0, 0, true));
}

/// Every grid the search emits keeps the fixed cells of the starting grid,
/// holds letters up to the target and the starting grid after it.
pub proof fn lemma_results_shape(sp: SearchSpace)
    requires
        0 <= sp.target < sp.orig.len(),
        word_wf(sp.orig),
    ensures
        forall|i: int| 0 <= i < sp.results().len() ==> shaped(sp, #[trigger] sp.results()[i], sp.target + 1),
{
    assert(shaped(sp, sp.orig, 0));
    lemma_enum_shape(sp, sp.orig, 0, 0, true);
    assert(sp.results() == enum_any(sp, sp.orig, 0, 0, true));
}

/// A grid whose letters up to the target are each allowed given the cells
/// before them, and which holds the starting grid after the target, is
/// emitted by the search.
pub proof fn lemma_accepted_emitted(sp: SearchSpace, g: Seq<EncodedChar>)
    requires
        0 <= sp.target < sp.orig.len(),
        g.len() == sp.orig.len(),
        forall|j: int| 0 <= j <= sp.target ==> (#[trigger] g[j]).is_letter() && sp.cand(g, j).contains(g[j].0),
        forall|j: int| sp.target < j < g.len() ==> #[trigger] g[j] == sp.orig[j],
    ensures
        sp.results().contains(g),
{
    lemma_accepted_from(sp, g, 0);
    assert(sp.fill(g, 0) =~= sp.orig);
}

proof fn lemma_accepted_from(sp: SearchSpace, g: Seq<EncodedChar>, k: int)
    requires
        0 <= sp.target < sp.orig.len(),
        0 <= k <= sp.target + 1,
        g.len() == sp.orig.len(),
        forall|j: int| 0 <= j <= sp.target ==> (#[trigger] g[j]).is_letter() && sp.cand(g, j).contains(g[j].0),
        forall|j: int| sp.target < j < g.len() ==> #[trigger] g[j] == sp.orig[j],
    ensures
        sp.enum_from(sp.fill(g, k), k).contains(g),
    decreases sp.target + 1 - k,
{
    if k > sp.target {
        assert(sp.fill(g, k) =~= g);
        assert(sp.enum_from(g, k)[0] == g);
    } else {
        lemma_accepted_from(sp, g, k + 1);
        let f = sp.fill(g, k);
        let c = g[k].0 as int;
        lemma_cand_prefix(sp, f, g, k);
        assert(f.update(k, EncodedChar(c as u8)) =~= sp.fill(g, k + 1));
        lemma_cell_contains(sp, f, k, 0, c, g);
    }
}

/// What the branch for letter `c` emits is part of `enum_cell` from any
/// earlier letter.
proof fn lemma_cell_contains(sp: SearchSpace, f: Seq<EncodedChar>, k: int, c0: int, c: int, x: Seq<EncodedChar>)
    requires
        0 <= k <= sp.target,
        0 <= c0 <= c < 32,
        sp.cand(f, k).contains(c as u8),
        sp.enum_from(f.update(k, EncodedChar(c as u8)), k + 1).contains(x),
    ensures
        sp.enum_cell(f, k, c0).contains(x),
    decreases c - c0,
{
    let here = if sp.cand(f, k).contains(c0 as u8) {
        sp.enum_from(f.update(k, EncodedChar(c0 as u8)), k + 1)
    } else {
        Seq::empty()
    };
    let rest = sp.enum_cell(f, k, c0 + 1);
    let all = sp.enum_cell(f, k, c0);
    assert(all == here + rest);
    if c0 == c {
        let i = choose|i: int| 0 <= i < here.len() && here[i] == x;
        assert(all[i] == x);
    } else {
        lemma_cell_contains(sp, f, k, c0 + 1, c, x);
        let i = choose|i: int| 0 <= i < rest.len() && rest[i] == x;
        assert(all[here.len() + i] == x);
    }
}

/// Running the engine twice on the same inputs gives the same grids, in
/// the same order (so the same multiset).
pub proof fn lemma_engine_deterministic(
    prefix_map: &WordPrefixMap,
    orig: &WordMatrix,
    target: MatrixIndex,
    r1: Seq<WordMatrix>,
    r2: Seq<WordMatrix>,
)
    requires
        grids_view(r1) == search_space(prefix_map, orig, target).results(),
        grids_view(r2) == search_space(prefix_map, orig, target).results(),
    ensures
        grids_view(r1) == grids_view(r2),
        grids_view(r1).to_multiset() == grids_view(r2).to_multiset(),
{
}

} // verus!
