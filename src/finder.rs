use vstd::prelude::*;

use crate::charset::{lemma_and_bit, lemma_singleton, CharSet};
use crate::dim_col;
use crate::dim_row;
use crate::echar::{null_char, EncodedChar, NULL_CODE};
use crate::matrix::{
    cell_index, col_of, lemma_cell_in_grid, lemma_flat_split, lemma_flat_unique, row_of, Dims,
    GenericMatrix, MatrixIndex, WordMatrix, MAX_SIDE,
};
use crate::prefix_map::{dim_patterns, hit, index_patterns, index_exact, lemma_prefix_entry_form, lookup, WordPrefixMap};
use crate::search::{
    compute, grids_view, lemma_accepted_emitted, lemma_no_dup_concat, lemma_results_agree,
    lemma_results_distinct, lemma_results_shape, shaped, SearchSpace,
};
use crate::wordlist::WordList;
use crate::wordstuffs::{all_letters, mask, word_wf, words_match, EitherWord};
use crate::templates::{either_view, grids_ok, make_templates, spec_templates};
use crate::prefix_map::make_prefix_map;
use crate::echar::chars_match;

verus! {

/// Number of null cells before flat position `k`.
pub open spec fn nulls_before(t: Seq<EncodedChar>, k: int) -> nat
    decreases k,
{
    if k <= 0 {
        0
    } else {
        nulls_before(t, k - 1) + if t[k - 1] == null_char() {
            1nat
        } else {
            0nat
        }
    }
}

/// The first position, from `k` on, with at least `width - 1` null cells
/// before it, or the last cell if there is none.
pub open spec fn frontier_from(t: Seq<EncodedChar>, d: Dims, k: int) -> int
    decreases d.size() - k,
{
    if k >= d.size() - 1 || nulls_before(t, k) >= d.width - 1 {
        k
    } else {
        frontier_from(t, d, k + 1)
    }
}

/// Where the prefix phase of a template's search stops.
pub open spec fn frontier_spec(t: Seq<EncodedChar>, d: Dims) -> int {
    frontier_from(t, d, 0)
}

/// Chooses the frontier cell: the first cell with `width - 1` free cells
/// before it, so that the prefix phase leaves many sub-problems.
pub fn frontier(template: &WordMatrix) -> (r: MatrixIndex)
    requires
        template.wf(),
    ensures
        r.in_grid(template.dims),
        r.flat(template.dims) == frontier_spec(template@, template.dims),
{
    let d = template.dims;
    let ghost n = d.size();
    let mut mi = MatrixIndex::zero();
    let mut k: usize = 0;
    let mut nulls: usize = 0;
    proof {
        crate::matrix::lemma_size_bound(d);
        assert(mi.row * d.width + mi.col == 0) by (nonlinear_arith)
            requires
                mi.row == 0,
                mi.col == 0,
        ;
    }
    loop
        invariant_except_break
            nulls == nulls_before(template@, k as int),
            nulls <= k,
        invariant
            template.wf(),
            d == template.dims,
            n == d.size(),
            mi.in_grid(d),
            k == mi.flat(d),
            k < n,
            n <= 256,
            frontier_from(template@, d, k as int) == frontier_spec(template@, d),
        ensures
            mi.in_grid(d),
            mi.flat(d) == frontier_spec(template@, d),
        decreases n - k,
    {
        if nulls >= d.width - 1 {
            break;
        }
        if template.get(mi).0 == NULL_CODE {
            nulls = nulls + 1;
        }
        match mi.inc(d) {
            Some(v) => {
                mi = v;
                k = k + 1;
            },
            None => {
                break;
            },
        }
    }
    mi
}

/// Every row and every column of `g` is in `words`.
pub open spec fn valid_rect(g: Seq<EncodedChar>, d: Dims, words: Seq<Seq<EncodedChar>>) -> bool {
    &&& forall|r: int| 0 <= r < d.height ==> words.contains(#[trigger] row_of(g, d, r))
    &&& forall|c: int| 0 <= c < d.width ==> words.contains(#[trigger] col_of(g, d, c))
}

proof fn lemma_has_view(wl: &WordList, s: Seq<EncodedChar>)
    ensures
        wl.has(s) == wl.view_seq().contains(s),
{
    if wl.has(s) {
        let i = choose|i: int| 0 <= i < wl.words@.len() && wl.words@[i]@ == s;
        assert(wl.view_seq()[i] == s);
    }
    if wl.view_seq().contains(s) {
        let i = choose|i: int| 0 <= i < wl.view_seq().len() && wl.view_seq()[i] == s;
        assert(wl.words@[i]@ == s);
    }
}

/// Checks a completed grid against the wordlist: every row and every
/// column must be a listed word.
pub fn is_valid_rectangle(grid: &WordMatrix, wordlist: &WordList) -> (r: bool)
    requires
        grid.wf(),
        word_wf(grid@),
        wordlist.wf(),
    ensures
        r == valid_rect(grid@, grid.dims, wordlist.view_seq()),
{
    let d = grid.dims;
    for i in 0..d.height
        invariant
            grid.wf(),
            d == grid.dims,
            word_wf(grid@),
            wordlist.wf(),
            forall|r: int| 0 <= r < i ==> wordlist.view_seq().contains(#[trigger] row_of(grid@, d, r)),
    {
        let w = dim_row::index_matrix(grid, i);
        proof {
            assert forall|q: int| 0 <= q < w@.len() implies (#[trigger] w@[q]).wf() by {
                lemma_cell_in_grid(d, i as int, q);
            }
            lemma_has_view(wordlist, w@);
        }
        if !wordlist.contains(&w) {
            return false;
        }
    }
    for i in 0..d.width
        invariant
            grid.wf(),
            d == grid.dims,
            word_wf(grid@),
            wordlist.wf(),
            forall|r: int| 0 <= r < d.height ==> wordlist.view_seq().contains(#[trigger] row_of(grid@, d, r)),
            forall|c: int| 0 <= c < i ==> wordlist.view_seq().contains(#[trigger] col_of(grid@, d, c)),
    {
        let w = dim_col::index_matrix(grid, i);
        proof {
            assert forall|q: int| 0 <= q < w@.len() implies (#[trigger] w@[q]).wf() by {
                lemma_cell_in_grid(d, q, i as int);
            }
            lemma_has_view(wordlist, w@);
        }
        if !wordlist.contains(&w) {
            return false;
        }
    }
    true
}

/// The search of one starting grid up to the given target.
pub open spec fn task_space(
    rows: Map<u128, CharSet>,
    cols: Map<u128, CharSet>,
    d: Dims,
    orig: Seq<EncodedChar>,
    target: int,
) -> SearchSpace {
    SearchSpace { rows, cols, dims: d, orig, target }
}

/// The grids of `s` that pass the wordlist check, in order.
pub open spec fn keep_valid(s: Seq<Seq<EncodedChar>>, d: Dims, words: Seq<Seq<EncodedChar>>) -> Seq<
    Seq<EncodedChar>,
>
    decreases s.len(),
{
    if s.len() == 0 {
        Seq::empty()
    } else {
        keep_valid(s.drop_last(), d, words) + if valid_rect(s.last(), d, words) {
            seq![s.last()]
        } else {
            Seq::empty()
        }
    }
}

/// The checked completions of each partial grid of `tasks`, in order.
pub open spec fn collect(
    rows: Map<u128, CharSet>,
    cols: Map<u128, CharSet>,
    d: Dims,
    tasks: Seq<Seq<EncodedChar>>,
    words: Seq<Seq<EncodedChar>>,
) -> Seq<Seq<EncodedChar>>
    decreases tasks.len(),
{
    if tasks.len() == 0 {
        Seq::empty()
    } else {
        collect(rows, cols, d, tasks.drop_last(), words) + keep_valid(
            task_space(rows, cols, d, tasks.last(), d.size() - 1).results(),
            d,
            words,
        )
    }
}

/// The rectangles found for a template: the prefix phase fills the cells
/// up to the frontier, then each partial grid is completed and checked.
pub open spec fn template_results(
    rows: Map<u128, CharSet>,
    cols: Map<u128, CharSet>,
    d: Dims,
    t: Seq<EncodedChar>,
    words: Seq<Seq<EncodedChar>>,
) -> Seq<Seq<EncodedChar>> {
    collect(rows, cols, d, task_space(rows, cols, d, t, frontier_spec(t, d)).results(), words)
}

/// Runs the search for one template with its index: the prefix phase up to
/// the frontier, then the completion of every partial grid, keeping the
/// grids whose rows and columns are all listed words.
pub fn search_template(template: &WordMatrix, prefix_map: &WordPrefixMap, wordlist: &WordList) -> (r: Vec<
    WordMatrix,
>)
    requires
        template.wf(),
        word_wf(template@),
        wordlist.wf(),
    ensures
        grids_view(r@) == template_results(
            prefix_map.rows_view(),
            prefix_map.cols_view(),
            template.dims,
            template@,
            wordlist.view_seq(),
        ),
        forall|i: int| 0 <= i < r@.len() ==> (#[trigger] r@[i]).dims == template.dims && r@[i].wf(),
{
    let d = template.dims;
    let ghost rows = prefix_map.rows_view();
    let ghost cols = prefix_map.cols_view();
    let ghost words = wordlist.view_seq();
    let f = frontier(template);
    let last = MatrixIndex { row: d.height - 1, col: d.width - 1 };
    proof {
        let (w, h) = (d.width as int, d.height as int);
        assert((h - 1) * w + (w - 1) == w * h - 1) by (nonlinear_arith);
        assert(last.flat(d) == d.size() - 1);
        lemma_cell_in_grid(d, f.row as int, f.col as int);
    }
    let tasks = compute(prefix_map, template, f);
    let ghost sp1 = task_space(rows, cols, d, template@, frontier_spec(template@, d));
    let ghost tv = grids_view(tasks@);
    proof {
        lemma_results_shape(sp1);
    }
    let mut out: Vec<WordMatrix> = Vec::new();
    assert(tv.subrange(0, 0) =~= Seq::<Seq<EncodedChar>>::empty());
    assert(grids_view(out@) =~= collect(rows, cols, d, tv.subrange(0, 0), words));
    for i in 0..tasks.len()
        invariant
            d == template.dims,
            d.wf(),
            wordlist.wf(),
            words == wordlist.view_seq(),
            rows == prefix_map.rows_view(),
            cols == prefix_map.cols_view(),
            last.in_grid(d),
            last.flat(d) == d.size() - 1,
            tv == grids_view(tasks@),
            tv == sp1.results(),
            sp1.orig.len() == d.size(),
            sp1.orig == template@,
            template.wf(),
            word_wf(template@),
            forall|j: int| 0 <= j < tasks@.len() ==> (#[trigger] tasks@[j]).dims == d,
            forall|j: int| 0 <= j < tv.len() ==> shaped(sp1, #[trigger] tv[j], sp1.target + 1),
            grids_view(out@) == collect(rows, cols, d, tv.subrange(0, i as int), words),
            forall|j: int| 0 <= j < out@.len() ==> (#[trigger] out@[j]).dims == d && out@[j].wf(),
    {
        let task = &tasks[i];
        proof {
            assert(tv[i as int] == task@);
            assert(shaped(sp1, task@, sp1.target + 1));
            assert forall|q: int| 0 <= q < task@.len() implies (#[trigger] task@[q]).wf() by {
                if q <= sp1.target {
                    assert(task@[q].is_letter());
                } else {
                    assert(task@[q] == template@[q]);
                }
            }
        }
        let done = compute(prefix_map, task, last);
        let ghost sp2 = task_space(rows, cols, d, task@, d.size() - 1);
        let ghost dv = grids_view(done@);
        proof {
            lemma_results_shape(sp2);
        }
        let ghost base = grids_view(out@);
        assert(dv.subrange(0, 0) =~= Seq::<Seq<EncodedChar>>::empty());
        assert(grids_view(out@) =~= base + keep_valid(dv.subrange(0, 0), d, words));
        for j in 0..done.len()
            invariant
                d == template.dims,
                d.wf(),
                wordlist.wf(),
                words == wordlist.view_seq(),
                dv == grids_view(done@),
                dv == sp2.results(),
                sp2.orig.len() == d.size(),
                sp2.target == d.size() - 1,
                forall|q: int| 0 <= q < done@.len() ==> (#[trigger] done@[q]).dims == d,
                forall|q: int| 0 <= q < dv.len() ==> shaped(sp2, #[trigger] dv[q], sp2.target + 1),
                grids_view(out@) == base + keep_valid(dv.subrange(0, j as int), d, words),
                forall|q: int| 0 <= q < out@.len() ==> (#[trigger] out@[q]).dims == d && out@[q].wf(),
        {
            let g = &done[j];
            proof {
                assert(dv[j as int] == g@);
                assert(shaped(sp2, g@, sp2.target + 1));
                assert forall|q: int| 0 <= q < g@.len() implies (#[trigger] g@[q]).wf() by {
                    assert(g@[q].is_letter());
                }
                let sub = dv.subrange(0, j + 1);
                assert(sub.drop_last() =~= dv.subrange(0, j as int));
                assert(sub.last() == g@);
            }
            if is_valid_rectangle(g, wordlist) {
                let ghost before = out@;
                out.push(g.copy());
                assert(grids_view(out@) =~= grids_view(before).push(g@));
                assert(grids_view(out@) =~= base + keep_valid(dv.subrange(0, j + 1), d, words));
            } else {
                assert(keep_valid(dv.subrange(0, j + 1), d, words) =~= keep_valid(dv.subrange(0, j as int), d, words));
            }
        }
        proof {
            assert(dv.subrange(0, dv.len() as int) =~= dv);
            let sub = tv.subrange(0, i + 1);
            assert(sub.drop_last() =~= tv.subrange(0, i as int));
            assert(sub.last() == task@);
            assert(grids_view(out@) =~= collect(rows, cols, d, tv.subrange(0, i + 1), words));
        }
    }
    assert(tv.subrange(0, tv.len() as int) =~= tv);
    out
}

proof fn lemma_keep_valid_member(
    s: Seq<Seq<EncodedChar>>,
    d: Dims,
    words: Seq<Seq<EncodedChar>>,
    x: Seq<EncodedChar>,
)
    ensures
        keep_valid(s, d, words).contains(x) <==> (s.contains(x) && valid_rect(x, d, words)),
    decreases s.len(),
{
    if s.len() > 0 {
        let init = s.drop_last();
        lemma_keep_valid_member(init, d, words, x);
        let kv = keep_valid(init, d, words);
        let tail = if valid_rect(s.last(), d, words) {
            seq![s.last()]
        } else {
            Seq::<Seq<EncodedChar>>::empty()
        };
        let all = keep_valid(s, d, words);
        assert(all == kv + tail);
        assert(s == init.push(s.last()));
        if all.contains(x) {
            let i = choose|i: int| 0 <= i < all.len() && all[i] == x;
            if i < kv.len() {
                assert(kv[i] == x);
                let j = choose|j: int| 0 <= j < init.len() && init[j] == x;
                assert(s[j] == x);
            } else {
                assert(x == s.last());
                assert(s[s.len() - 1] == x);
            }
        }
        if s.contains(x) && valid_rect(x, d, words) {
            let j = choose|j: int| 0 <= j < s.len() && s[j] == x;
            if j < init.len() {
                assert(init[j] == x);
                let i = choose|i: int| 0 <= i < kv.len() && kv[i] == x;
                assert(all[i] == x);
            } else {
                assert(all[kv.len() as int] == x);
            }
        }
    }
}

proof fn lemma_collect_member(
    rows: Map<u128, CharSet>,
    cols: Map<u128, CharSet>,
    d: Dims,
    tasks: Seq<Seq<EncodedChar>>,
    words: Seq<Seq<EncodedChar>>,
    x: Seq<EncodedChar>,
)
    ensures
        collect(rows, cols, d, tasks, words).contains(x) <==> exists|i: int|
            0 <= i < tasks.len() && keep_valid(
                task_space(rows, cols, d, #[trigger] tasks[i], d.size() - 1).results(),
                d,
                words,
            ).contains(x),
    decreases tasks.len(),
{
    if tasks.len() > 0 {
        let init = tasks.drop_last();
        lemma_collect_member(rows, cols, d, init, words, x);
        let head = collect(rows, cols, d, init, words);
        let tail = keep_valid(task_space(rows, cols, d, tasks.last(), d.size() - 1).results(), d, words);
        let all = collect(rows, cols, d, tasks, words);
        assert(all == head + tail);
        if all.contains(x) {
            let i = choose|i: int| 0 <= i < all.len() && all[i] == x;
            if i < head.len() {
                assert(head[i] == x);
                let j = choose|j: int|
                    0 <= j < init.len() && keep_valid(
                        task_space(rows, cols, d, #[trigger] init[j], d.size() - 1).results(),
                        d,
                        words,
                    ).contains(x);
                assert(tasks[j] == init[j]);
            } else {
                assert(tail[i - head.len()] == x);
                assert(tasks[tasks.len() - 1] == tasks.last());
            }
        }
        if exists|i: int|
            0 <= i < tasks.len() && keep_valid(
                task_space(rows, cols, d, #[trigger] tasks[i], d.size() - 1).results(),
                d,
                words,
            ).contains(x) {
            let i = choose|i: int|
                0 <= i < tasks.len() && keep_valid(
                    task_space(rows, cols, d, #[trigger] tasks[i], d.size() - 1).results(),
                    d,
                    words,
                ).contains(x);
            if i < init.len() {
                assert(init[i] == tasks[i]);
                let j = choose|j: int| 0 <= j < head.len() && head[j] == x;
                assert(all[j] == x);
            } else {
                let j = choose|j: int| 0 <= j < tail.len() && tail[j] == x;
                assert(all[head.len() + j] == x);
            }
        }
    }
}

/// Every rectangle found for template `t` fits it: the template matches it
/// cell by cell, and every row and every column is a listed word.
pub proof fn lemma_results_round_trip(
    rows: Map<u128, CharSet>,
    cols: Map<u128, CharSet>,
    d: Dims,
    t: Seq<EncodedChar>,
    words: Seq<Seq<EncodedChar>>,
    m: Seq<EncodedChar>,
)
    requires
        d.wf(),
        t.len() == d.size(),
        word_wf(t),
        template_results(rows, cols, d, t, words).contains(m),
    ensures
        words_match(t, m),
        all_letters(m),
        forall|r: int| 0 <= r < d.height ==> words.contains(#[trigger] row_of(m, d, r)),
        forall|c: int| 0 <= c < d.width ==> words.contains(#[trigger] col_of(m, d, c)),
{
    let f = frontier_spec(t, d);
    crate::matrix::lemma_size_bound(d);
    lemma_frontier_range(t, d, 0);
    let sp1 = task_space(rows, cols, d, t, f);
    let tasks = sp1.results();
    lemma_collect_member(rows, cols, d, tasks, words, m);
    let i = choose|i: int|
        0 <= i < tasks.len() && keep_valid(
            task_space(rows, cols, d, #[trigger] tasks[i], d.size() - 1).results(),
            d,
            words,
        ).contains(m);
    let p = tasks[i];
    let sp2 = task_space(rows, cols, d, p, d.size() - 1);
    lemma_keep_valid_member(sp2.results(), d, words, m);
    lemma_results_shape(sp1);
    assert(shaped(sp1, p, f + 1));
    assert forall|q: int| 0 <= q < p.len() implies (#[trigger] p[q]).wf() by {
        if q <= f {
            assert(p[q].is_letter());
        } else {
            assert(p[q] == t[q]);
        }
    }
    lemma_results_shape(sp2);
    let j = choose|j: int| 0 <= j < sp2.results().len() && sp2.results()[j] == m;
    assert(shaped(sp2, m, d.size()));
    assert forall|q: int| 0 <= q < t.len() implies #[trigger] chars_match(t[q], m[q]) by {
        if t[q] != null_char() {
            assert(p[q] == t[q]);
        }
    }
}

/// The frontier lies inside the grid.
proof fn lemma_frontier_range(t: Seq<EncodedChar>, d: Dims, k: int)
    requires
        d.wf(),
        0 <= k < d.size(),
    ensures
        k <= frontier_from(t, d, k) < d.size(),
    decreases d.size() - k,
{
    crate::matrix::lemma_size_bound(d);
    if !(k >= d.size() - 1 || nulls_before(t, k) >= d.width - 1) {
        lemma_frontier_range(t, d, k + 1);
    }
}

/// At a free cell, a rectangle that the template matches and whose rows
/// and columns are all listed gets its letter from the index, whenever the
/// cells before it are the rectangle's and the cells from it on the
/// template's.
proof fn lemma_free_cell_admits(
    sp: SearchSpace,
    t: Seq<EncodedChar>,
    words: Seq<Seq<EncodedChar>>,
    g: Seq<EncodedChar>,
    m: Seq<EncodedChar>,
    j: int,
)
    requires
        sp.dims.wf(),
        index_exact(sp.rows, words, index_patterns(t, sp.dims, true), sp.dims.width as nat),
        index_exact(sp.cols, words, index_patterns(t, sp.dims, false), sp.dims.height as nat),
        t.len() == sp.dims.size(),
        word_wf(t),
        m.len() == sp.dims.size(),
        all_letters(m),
        words_match(t, m),
        valid_rect(m, sp.dims, words),
        sp.orig.len() == sp.dims.size(),
        0 <= j < sp.dims.size(),
        sp.orig[j] == null_char(),
        t[j] == null_char(),
        forall|x: int| 0 <= x < j ==> #[trigger] g[x] == m[x],
        forall|x: int| j <= x < sp.dims.size() ==> #[trigger] sp.orig[x] == t[x],
    ensures
        sp.cand(g, j).contains(m[j].0),
{
    let d = sp.dims;
    let w = d.width as int;
    lemma_flat_split(d, j);
    let r = j / w;
    let c = j % w;
    let f = sp.fill(g, j);
    // the row through the cell
    let wr = row_of(m, d, r);
    let tr = row_of(t, d, r);
    let qr = row_of(f, d, r);
    assert forall|x: int| 0 <= x < d.width implies qr[x] == mask(wr, tr, c)[x] by {
        lemma_cell_in_grid(d, r, x);
        let k = cell_index(d, r, x);
        assert(chars_match(t[k], m[k]));
        assert(m[k].is_letter());
    }
    assert(qr =~= mask(wr, tr, c));
    assert(words_match(tr, wr)) by {
        assert forall|x: int| 0 <= x < tr.len() implies #[trigger] chars_match(tr[x], wr[x]) by {
            lemma_cell_in_grid(d, r, x);
            assert(chars_match(t[cell_index(d, r, x)], m[cell_index(d, r, x)]));
        }
    }
    assert(wr[c] == m[j]);
    assert(tr[c] == null_char());
    assert(0 <= c < wr.len() && tr[c] == null_char() && (qr, wr[c]) == (mask(wr, tr, c), wr[c]));
    lemma_prefix_entry_form(wr, tr, 0, (qr, wr[c]));
    assert(EncodedChar(m[j].0) == m[j]);
    assert(words.contains(wr));
    let wi = choose|wi: int| 0 <= wi < words.len() && words[wi] == wr;
    let pr = index_patterns(t, d, true);
    assert(dim_patterns(t, d, true)[r] == tr);
    assert(pr[r] == tr);
    assert(hit(words, pr, d.width as nat, wi, r, qr, m[j].0));
    assert forall|x: int| 0 <= x < qr.len() implies (#[trigger] qr[x]).wf() by {
        lemma_cell_in_grid(d, r, x);
        assert(m[cell_index(d, r, x)].is_letter());
    }
    assert(m[j].is_letter());
    // the column through the cell
    let wc = col_of(m, d, c);
    let tc = col_of(t, d, c);
    let qc = col_of(f, d, c);
    assert forall|x: int| 0 <= x < d.height implies qc[x] == mask(wc, tc, r)[x] by {
        lemma_cell_in_grid(d, x, c);
        let k = cell_index(d, x, c);
        assert(chars_match(t[k], m[k]));
        assert(m[k].is_letter());
        if x < r {
            assert(k < j) by (nonlinear_arith)
                requires
                    k == x * w + c,
                    j == r * w + c,
                    x < r,
                    w >= 1,
            ;
        } else {
            assert(k >= j) by (nonlinear_arith)
                requires
                    k == x * w + c,
                    j == r * w + c,
                    x >= r,
                    w >= 1,
            ;
        }
    }
    assert(qc =~= mask(wc, tc, r));
    assert(words_match(tc, wc)) by {
        assert forall|x: int| 0 <= x < tc.len() implies #[trigger] chars_match(tc[x], wc[x]) by {
            lemma_cell_in_grid(d, x, c);
            assert(chars_match(t[cell_index(d, x, c)], m[cell_index(d, x, c)]));
        }
    }
    assert(wc[r] == m[j]);
    assert(tc[r] == null_char());
    assert(0 <= r < wc.len() && tc[r] == null_char() && (qc, wc[r]) == (mask(wc, tc, r), wc[r]));
    lemma_prefix_entry_form(wc, tc, 0, (qc, wc[r]));
    assert(words.contains(wc));
    let wj = choose|wj: int| 0 <= wj < words.len() && words[wj] == wc;
    let pc = index_patterns(t, d, false);
    let ci = if d.width == d.height {
        d.height + c
    } else {
        c
    };
    assert(dim_patterns(t, d, false)[c] == tc);
    assert(pc[ci] == tc);
    assert(hit(words, pc, d.height as nat, wj, ci, qc, m[j].0));
    assert forall|x: int| 0 <= x < qc.len() implies (#[trigger] qc[x]).wf() by {
        lemma_cell_in_grid(d, x, c);
        assert(m[cell_index(d, x, c)].is_letter());
    }
    lemma_and_bit(
        crate::prefix_map::lookup(sp.rows, qr).0,
        crate::prefix_map::lookup(sp.cols, qc).0,
        m[j].0,
    );
}

/// Every rectangle that template `t` matches cell by cell, whose rows and
/// columns are all listed words, is found for `t` by the search with the
/// index built from `t` and the wordlist.
pub proof fn lemma_results_complete(
    rows: Map<u128, CharSet>,
    cols: Map<u128, CharSet>,
    d: Dims,
    t: Seq<EncodedChar>,
    words: Seq<Seq<EncodedChar>>,
    m: Seq<EncodedChar>,
)
    requires
        d.wf(),
        t.len() == d.size(),
        word_wf(t),
        index_exact(rows, words, index_patterns(t, d, true), d.width as nat),
        index_exact(cols, words, index_patterns(t, d, false), d.height as nat),
        m.len() == d.size(),
        all_letters(m),
        words_match(t, m),
        valid_rect(m, d, words),
    ensures
        template_results(rows, cols, d, t, words).contains(m),
{
    let n = d.size();
    crate::matrix::lemma_size_bound(d);
    lemma_frontier_range(t, d, 0);
    let f = frontier_spec(t, d);
    let p = Seq::new(n as nat, |x: int| if x <= f { m[x] } else { t[x] });
    let sp1 = task_space(rows, cols, d, t, f);
    assert forall|j: int| 0 <= j <= f implies (#[trigger] p[j]).is_letter() && sp1.cand(p, j).contains(
        p[j].0,
    ) by {
        assert(m[j].is_letter());
        assert(chars_match(t[j], m[j]));
        if t[j] != null_char() {
            assert(t[j].wf());
            lemma_singleton(t[j].0, m[j].0);
        } else {
            lemma_free_cell_admits(sp1, t, words, p, m, j);
        }
    }
    lemma_accepted_emitted(sp1, p);
    let sp2 = task_space(rows, cols, d, p, n - 1);
    assert forall|j: int| 0 <= j <= n - 1 implies (#[trigger] m[j]).is_letter() && sp2.cand(m, j).contains(
        m[j].0,
    ) by {
        assert(chars_match(t[j], m[j]));
        if p[j] != null_char() {
            if j > f {
                assert(t[j].wf());
            }
            assert(p[j] == m[j]);
            lemma_singleton(p[j].0, m[j].0);
        } else {
            assert(j > f);
            lemma_free_cell_admits(sp2, t, words, m, m, j);
        }
    }
    lemma_accepted_emitted(sp2, m);
    lemma_keep_valid_member(sp2.results(), d, words, m);
    let tasks = sp1.results();
    let i = choose|i: int| 0 <= i < tasks.len() && tasks[i] == p;
    lemma_collect_member(rows, cols, d, tasks, words, m);
    assert(keep_valid(task_space(rows, cols, d, tasks[i], d.size() - 1).results(), d, words).contains(m));
}

/// Two exact indexes of the same template and wordlist allow the same
/// letters at every state a search can reach.
proof fn lemma_cand_agree(sp1: SearchSpace, sp2: SearchSpace, t: Seq<EncodedChar>, words: Seq<Seq<EncodedChar>>, h: Seq<EncodedChar>, k: int, c: u8)
    requires
        sp1.orig == sp2.orig,
        sp1.dims == sp2.dims,
        sp1.dims.wf(),
        sp1.orig.len() == sp1.dims.size(),
        word_wf(sp1.orig),
        index_exact(sp1.rows, words, index_patterns(t, sp1.dims, true), sp1.dims.width as nat),
        index_exact(sp1.cols, words, index_patterns(t, sp1.dims, false), sp1.dims.height as nat),
        index_exact(sp2.rows, words, index_patterns(t, sp1.dims, true), sp1.dims.width as nat),
        index_exact(sp2.cols, words, index_patterns(t, sp1.dims, false), sp1.dims.height as nat),
        0 <= k < sp1.orig.len(),
        shaped(sp1, h, k),
    ensures
        sp1.cand(h, k).contains(c) == sp2.cand(h, k).contains(c),
{
    if sp1.orig[k] == null_char() && c < 32 {
        let d = sp1.dims;
        let w = d.width as int;
        lemma_flat_split(d, k);
        let r = k / w;
        let col = k % w;
        let f = sp1.fill(h, k);
        assert(f == sp2.fill(h, k));
        let qr = row_of(f, d, r);
        let qc = col_of(f, d, col);
        assert forall|x: int| 0 <= x < qr.len() implies (#[trigger] qr[x]).wf() by {
            lemma_cell_in_grid(d, r, x);
            let q = cell_index(d, r, x);
            if q < k {
                assert(h[q].is_letter());
            }
        }
        assert forall|x: int| 0 <= x < qc.len() implies (#[trigger] qc[x]).wf() by {
            lemma_cell_in_grid(d, x, col);
            let q = cell_index(d, x, col);
            if q < k {
                assert(h[q].is_letter());
            }
        }
        assert(lookup(sp1.rows, qr).contains(c) == lookup(sp2.rows, qr).contains(c));
        assert(lookup(sp1.cols, qc).contains(c) == lookup(sp2.cols, qc).contains(c));
        lemma_and_bit(lookup(sp1.rows, qr).0, lookup(sp1.cols, qc).0, c);
        lemma_and_bit(lookup(sp2.rows, qr).0, lookup(sp2.cols, qc).0, c);
    }
}

proof fn lemma_space_agree(sp1: SearchSpace, sp2: SearchSpace, t: Seq<EncodedChar>, words: Seq<Seq<EncodedChar>>)
    requires
        sp1.orig == sp2.orig,
        sp1.dims == sp2.dims,
        sp1.target == sp2.target,
        0 <= sp1.target < sp1.orig.len(),
        sp1.dims.wf(),
        sp1.orig.len() == sp1.dims.size(),
        word_wf(sp1.orig),
        index_exact(sp1.rows, words, index_patterns(t, sp1.dims, true), sp1.dims.width as nat),
        index_exact(sp1.cols, words, index_patterns(t, sp1.dims, false), sp1.dims.height as nat),
        index_exact(sp2.rows, words, index_patterns(t, sp1.dims, true), sp1.dims.width as nat),
        index_exact(sp2.cols, words, index_patterns(t, sp1.dims, false), sp1.dims.height as nat),
    ensures
        sp1.results() == sp2.results(),
{
    assert forall|h: Seq<EncodedChar>, kk: int, cc: u8|
        0 <= kk <= sp1.target && shaped(sp1, h, kk) implies #[trigger] sp1.cand(h, kk).contains(cc)
        == sp2.cand(h, kk).contains(cc) by {
        lemma_cand_agree(sp1, sp2, t, words, h, kk, cc);
    }
    lemma_results_agree(sp1, sp2);
}

proof fn lemma_collect_agree(
    rows1: Map<u128, CharSet>,
    cols1: Map<u128, CharSet>,
    rows2: Map<u128, CharSet>,
    cols2: Map<u128, CharSet>,
    d: Dims,
    t: Seq<EncodedChar>,
    tasks: Seq<Seq<EncodedChar>>,
    words: Seq<Seq<EncodedChar>>,
)
    requires
        d.wf(),
        forall|i: int| 0 <= i < tasks.len() ==> (#[trigger] tasks[i]).len() == d.size() && word_wf(tasks[i]),
        index_exact(rows1, words, index_patterns(t, d, true), d.width as nat),
        index_exact(cols1, words, index_patterns(t, d, false), d.height as nat),
        index_exact(rows2, words, index_patterns(t, d, true), d.width as nat),
        index_exact(cols2, words, index_patterns(t, d, false), d.height as nat),
    ensures
        collect(rows1, cols1, d, tasks, words) == collect(rows2, cols2, d, tasks, words),
    decreases tasks.len(),
{
    if tasks.len() > 0 {
        crate::matrix::lemma_size_bound(d);
        let p = tasks.last();
        assert(p == tasks[tasks.len() - 1]);
        lemma_space_agree(
            task_space(rows1, cols1, d, p, d.size() - 1),
            task_space(rows2, cols2, d, p, d.size() - 1),
            t,
            words,
        );
        let init = tasks.drop_last();
        assert forall|i: int| 0 <= i < init.len() implies (#[trigger] init[i]).len() == d.size() && word_wf(init[i]) by {
            assert(init[i] == tasks[i]);
        }
        lemma_collect_agree(rows1, cols1, rows2, cols2, d, t, init, words);
    }
}

/// The rectangles found for a template do not depend on which exact index
/// of the template and wordlist the search uses.
pub proof fn lemma_template_results_agree(
    rows1: Map<u128, CharSet>,
    cols1: Map<u128, CharSet>,
    rows2: Map<u128, CharSet>,
    cols2: Map<u128, CharSet>,
    d: Dims,
    t: Seq<EncodedChar>,
    words: Seq<Seq<EncodedChar>>,
)
    requires
        d.wf(),
        t.len() == d.size(),
        word_wf(t),
        index_exact(rows1, words, index_patterns(t, d, true), d.width as nat),
        index_exact(cols1, words, index_patterns(t, d, false), d.height as nat),
        index_exact(rows2, words, index_patterns(t, d, true), d.width as nat),
        index_exact(cols2, words, index_patterns(t, d, false), d.height as nat),
    ensures
        template_results(rows1, cols1, d, t, words) == template_results(rows2, cols2, d, t, words),
{
    crate::matrix::lemma_size_bound(d);
    lemma_frontier_range(t, d, 0);
    let f = frontier_spec(t, d);
    let sp1 = task_space(rows1, cols1, d, t, f);
    let sp2 = task_space(rows2, cols2, d, t, f);
    lemma_space_agree(sp1, sp2, t, words);
    lemma_results_shape(sp1);
    let tasks = sp1.results();
    assert forall|i: int| 0 <= i < tasks.len() implies (#[trigger] tasks[i]).len() == d.size() && word_wf(tasks[i]) by {
        assert(shaped(sp1, tasks[i], f + 1));
        assert forall|q: int| 0 <= q < tasks[i].len() implies (#[trigger] tasks[i][q]).wf() by {
            if q <= f {
                assert(tasks[i][q].is_letter());
            } else {
                assert(tasks[i][q] == t[q]);
            }
        }
    }
    lemma_collect_agree(rows1, cols1, rows2, cols2, d, t, tasks, words);
}

/// A row index exact for template `t` and the words.
pub open spec fn canon_rows(t: Seq<EncodedChar>, d: Dims, words: Seq<Seq<EncodedChar>>) -> Map<u128, CharSet> {
    choose|m: Map<u128, CharSet>| index_exact(m, words, index_patterns(t, d, true), d.width as nat)
}

/// A column index exact for template `t` and the words.
pub open spec fn canon_cols(t: Seq<EncodedChar>, d: Dims, words: Seq<Seq<EncodedChar>>) -> Map<u128, CharSet> {
    choose|m: Map<u128, CharSet>| index_exact(m, words, index_patterns(t, d, false), d.height as nat)
}

/// The rectangles found for each template in turn.
pub open spec fn rectangles_of(tv: Seq<Seq<EncodedChar>>, d: Dims, words: Seq<Seq<EncodedChar>>) -> Seq<Seq<EncodedChar>>
    decreases tv.len(),
{
    if tv.len() == 0 {
        Seq::empty()
    } else {
        rectangles_of(tv.drop_last(), d, words) + template_results(
            canon_rows(tv.last(), d, words),
            canon_cols(tv.last(), d, words),
            d,
            tv.last(),
            words,
        )
    }
}

/// Running the search twice on the same wordlist and must-use words gives
/// the same rectangles, in the same order (so the same multiset).
pub proof fn lemma_find_deterministic(
    wordlist: &WordList,
    must_use: Seq<EitherWord>,
    r1: Seq<Seq<EncodedChar>>,
    r2: Seq<Seq<EncodedChar>>,
)
    requires
        r1 == rectangles_of(all_templates(must_use, wordlist.dims), wordlist.dims, wordlist.view_seq()),
        r2 == rectangles_of(all_templates(must_use, wordlist.dims), wordlist.dims, wordlist.view_seq()),
    ensures
        r1 == r2,
        r1.to_multiset() == r2.to_multiset(),
{
}

proof fn lemma_keep_valid_distinct(s: Seq<Seq<EncodedChar>>, d: Dims, words: Seq<Seq<EncodedChar>>)
    requires
        s.no_duplicates(),
    ensures
        keep_valid(s, d, words).no_duplicates(),
    decreases s.len(),
{
    if s.len() > 0 {
        let init = s.drop_last();
        assert(init.no_duplicates()) by {
            assert forall|i: int, j: int| 0 <= i < init.len() && 0 <= j < init.len() && i != j implies init[i] != init[j] by {
                assert(s[i] != s[j]);
            }
        }
        lemma_keep_valid_distinct(init, d, words);
        let kv = keep_valid(init, d, words);
        let tail = if valid_rect(s.last(), d, words) {
            seq![s.last()]
        } else {
            Seq::<Seq<EncodedChar>>::empty()
        };
        assert forall|i: int, j: int| 0 <= i < kv.len() && 0 <= j < tail.len() implies kv[i] != tail[j] by {
            lemma_keep_valid_member(init, d, words, kv[i]);
            assert(kv.contains(kv[i]));
            let q = choose|q: int| 0 <= q < init.len() && init[q] == kv[i];
            assert(s[q] != s[s.len() - 1]);
        }
        lemma_no_dup_concat(kv, tail);
    }
}

/// The completions of a task keep its letters up to the frontier.
proof fn lemma_completion_keeps_task(
    rows: Map<u128, CharSet>,
    cols: Map<u128, CharSet>,
    d: Dims,
    p: Seq<EncodedChar>,
    f: int,
    words: Seq<Seq<EncodedChar>>,
    x: Seq<EncodedChar>,
)
    requires
        d.wf(),
        p.len() == d.size(),
        word_wf(p),
        0 <= f < d.size(),
        forall|j: int| 0 <= j <= f ==> (#[trigger] p[j]).is_letter(),
        keep_valid(task_space(rows, cols, d, p, d.size() - 1).results(), d, words).contains(x),
    ensures
        forall|j: int| 0 <= j <= f ==> #[trigger] x[j] == p[j],
{
    let sp2 = task_space(rows, cols, d, p, d.size() - 1);
    lemma_keep_valid_member(sp2.results(), d, words, x);
    lemma_results_shape(sp2);
    let i = choose|i: int| 0 <= i < sp2.results().len() && sp2.results()[i] == x;
    assert(shaped(sp2, sp2.results()[i], d.size()));
    assert forall|j: int| 0 <= j <= f implies #[trigger] x[j] == p[j] by {
        assert(p[j] != null_char());
    }
}

proof fn lemma_collect_distinct(
    rows: Map<u128, CharSet>,
    cols: Map<u128, CharSet>,
    d: Dims,
    t: Seq<EncodedChar>,
    f: int,
    tasks: Seq<Seq<EncodedChar>>,
    words: Seq<Seq<EncodedChar>>,
)
    requires
        d.wf(),
        0 <= f < d.size(),
        tasks.no_duplicates(),
        forall|i: int| 0 <= i < tasks.len() ==> (#[trigger] tasks[i]).len() == d.size() && word_wf(tasks[i]),
        forall|i: int, j: int| 0 <= i < tasks.len() && 0 <= j <= f ==> (#[trigger] tasks[i][j]).is_letter(),
        forall|i: int, j: int| 0 <= i < tasks.len() && f < j < d.size() ==> #[trigger] tasks[i][j] == t[j],
    ensures
        collect(rows, cols, d, tasks, words).no_duplicates(),
    decreases tasks.len(),
{
    if tasks.len() > 0 {
        crate::matrix::lemma_size_bound(d);
        let init = tasks.drop_last();
        let p = tasks.last();
        let last = tasks.len() - 1;
        assert(p == tasks[last]);
        assert(init.no_duplicates()) by {
            assert forall|i: int, j: int| 0 <= i < init.len() && 0 <= j < init.len() && i != j implies init[i] != init[j] by {
                assert(tasks[i] != tasks[j]);
            }
        }
        assert forall|i: int| 0 <= i < init.len() implies (#[trigger] init[i]).len() == d.size() && word_wf(init[i]) by {
            assert(init[i] == tasks[i]);
        }
        assert forall|i: int, j: int| 0 <= i < init.len() && 0 <= j <= f implies (#[trigger] init[i][j]).is_letter() by {
            assert(init[i] == tasks[i]);
        }
        assert forall|i: int, j: int| 0 <= i < init.len() && f < j < d.size() implies #[trigger] init[i][j] == t[j] by {
            assert(init[i] == tasks[i]);
        }
        lemma_collect_distinct(rows, cols, d, t, f, init, words);
        let head = collect(rows, cols, d, init, words);
        let sp2 = task_space(rows, cols, d, p, d.size() - 1);
        let tail = keep_valid(sp2.results(), d, words);
        lemma_results_distinct(sp2);
        lemma_keep_valid_distinct(sp2.results(), d, words);
        assert forall|a: int, b: int| 0 <= a < head.len() && 0 <= b < tail.len() implies head[a] != tail[b] by {
            let x = head[a];
            assert(head.contains(x));
            lemma_collect_member(rows, cols, d, init, words, x);
            let q = choose|q: int|
                0 <= q < init.len() && keep_valid(
                    task_space(rows, cols, d, #[trigger] init[q], d.size() - 1).results(),
                    d,
                    words,
                ).contains(x);
            assert(init[q] == tasks[q]);
            assert(forall|j: int| 0 <= j <= f ==> (#[trigger] init[q][j]).is_letter());
            lemma_completion_keeps_task(rows, cols, d, init[q], f, words, x);
            assert(tail.contains(tail[b]));
            lemma_completion_keeps_task(rows, cols, d, p, f, words, tail[b]);
            if x == tail[b] {
                assert(tasks[q] != tasks[last]);
                assert(init[q] =~= p) by {
                    assert forall|j: int| 0 <= j < p.len() implies init[q][j] == p[j] by {
                        if j <= f {
                            assert(x[j] == init[q][j]);
                            assert(x[j] == p[j]);
                        } else {
                            assert(tasks[q][j] == t[j]);
                            assert(tasks[last][j] == t[j]);
                        }
                    }
                }
            }
        }
        lemma_no_dup_concat(head, tail);
        assert(collect(rows, cols, d, tasks, words) == head + tail);
    }
}

/// No rectangle is found twice for one template.
pub proof fn lemma_template_results_distinct(
    rows: Map<u128, CharSet>,
    cols: Map<u128, CharSet>,
    d: Dims,
    t: Seq<EncodedChar>,
    words: Seq<Seq<EncodedChar>>,
)
    requires
        d.wf(),
        t.len() == d.size(),
        word_wf(t),
    ensures
        template_results(rows, cols, d, t, words).no_duplicates(),
{
    crate::matrix::lemma_size_bound(d);
    lemma_frontier_range(t, d, 0);
    let f = frontier_spec(t, d);
    let sp1 = task_space(rows, cols, d, t, f);
    lemma_results_distinct(sp1);
    lemma_results_shape(sp1);
    let tasks = sp1.results();
    assert forall|i: int| 0 <= i < tasks.len() implies (#[trigger] tasks[i]).len() == d.size() && word_wf(tasks[i]) by {
        assert(shaped(sp1, tasks[i], f + 1));
        assert forall|q: int| 0 <= q < tasks[i].len() implies (#[trigger] tasks[i][q]).wf() by {
            if q <= f {
                assert(tasks[i][q].is_letter());
            } else {
                assert(tasks[i][q] == t[q]);
            }
        }
    }
    assert forall|i: int, j: int| 0 <= i < tasks.len() && 0 <= j <= f implies (#[trigger] tasks[i][j]).is_letter() by {
        assert(shaped(sp1, tasks[i], f + 1));
    }
    assert forall|i: int, j: int| 0 <= i < tasks.len() && f < j < d.size() implies #[trigger] tasks[i][j] == t[j] by {
        assert(shaped(sp1, tasks[i], f + 1));
    }
    lemma_collect_distinct(rows, cols, d, t, f, tasks, words);
}

/// Every rectangle that template `t` matches cell by cell, whose rows and
/// columns are all listed words, is found for `t` exactly once.
pub proof fn lemma_found_once(
    rows: Map<u128, CharSet>,
    cols: Map<u128, CharSet>,
    d: Dims,
    t: Seq<EncodedChar>,
    words: Seq<Seq<EncodedChar>>,
    m: Seq<EncodedChar>,
)
    requires
        d.wf(),
        t.len() == d.size(),
        word_wf(t),
        index_exact(rows, words, index_patterns(t, d, true), d.width as nat),
        index_exact(cols, words, index_patterns(t, d, false), d.height as nat),
        m.len() == d.size(),
        all_letters(m),
        words_match(t, m),
        valid_rect(m, d, words),
    ensures
        exists|i: int|
            0 <= i < template_results(rows, cols, d, t, words).len() && template_results(rows, cols, d, t, words)[i]
                == m && forall|j: int|
                0 <= j < template_results(rows, cols, d, t, words).len() && #[trigger] template_results(
                    rows,
                    cols,
                    d,
                    t,
                    words,
                )[j] == m ==> j == i,
{
    let r = template_results(rows, cols, d, t, words);
    lemma_results_complete(rows, cols, d, t, words, m);
    lemma_template_results_distinct(rows, cols, d, t, words);
    let i = choose|i: int| 0 <= i < r.len() && r[i] == m;
    assert forall|j: int| 0 <= j < r.len() && #[trigger] r[j] == m implies j == i by {
        if j != i {
            assert(r[i] != r[j]);
        }
    }
}

/// The templates for the must-use words, from the all-null grid.
pub open spec fn all_templates(must_use: Seq<EitherWord>, d: Dims) -> Seq<Seq<EncodedChar>> {
    spec_templates(either_view(must_use), seq![Seq::new(d.size() as nat, |k: int| null_char())], d)
}

/// Finds the word rectangles over `wordlist` that contain the must-use
/// words: every template is searched with its own index, one after the
/// other. Each result fits one of the templates and has all its rows and
/// columns in the list; every such rectangle of every template is found.
pub fn find_rectangles(wordlist: &WordList, must_use: &[EitherWord]) -> (r: Vec<WordMatrix>)
    requires
        wordlist.wf(),
        forall|i: int| 0 <= i < must_use@.len() ==> word_wf((#[trigger] must_use@[i]).spec_word()),
    ensures
        forall|i: int|
            0 <= i < r@.len() ==> {
                let m = (#[trigger] r@[i])@;
                &&& r@[i].dims == wordlist.dims
                &&& m.len() == wordlist.dims.size()
                &&& all_letters(m)
                &&& valid_rect(m, wordlist.dims, wordlist.view_seq())
                &&& exists|ti: int|
                    0 <= ti < all_templates(must_use@, wordlist.dims).len() && words_match(
                        #[trigger] all_templates(must_use@, wordlist.dims)[ti],
                        m,
                    )
            },
        forall|ti: int, m: Seq<EncodedChar>|
            0 <= ti < all_templates(must_use@, wordlist.dims).len() && m.len()
                == wordlist.dims.size() && all_letters(m) && #[trigger] words_match(
                all_templates(must_use@, wordlist.dims)[ti],
                m,
            ) && valid_rect(m, wordlist.dims, wordlist.view_seq()) ==> grids_view(r@).contains(m),
        grids_view(r@) == rectangles_of(
            all_templates(must_use@, wordlist.dims),
            wordlist.dims,
            wordlist.view_seq(),
        ),
{
    let d = wordlist.dims;
    let ghost words = wordlist.view_seq();
    let mut seed: Vec<WordMatrix> = Vec::new();
    let empty = GenericMatrix::nulls(d);
    seed.push(empty);
    proof {
        assert(grids_view(seed@) =~= seq![Seq::new(d.size() as nat, |k: int| null_char())]);
        assert forall|q: int| 0 <= q < d.size() implies (#[trigger] empty@[q]).wf() by {}
    }
    let templates = make_templates(must_use, seed, d);
    let ghost tv = grids_view(templates@);
    let mut out: Vec<WordMatrix> = Vec::new();
    assert(grids_view(out@) =~= rectangles_of(tv.subrange(0, 0), d, words));
    for i in 0..templates.len()
        invariant
            grids_view(out@) == rectangles_of(tv.subrange(0, i as int), d, words),
            wordlist.wf(),
            d == wordlist.dims,
            words == wordlist.view_seq(),
            grids_ok(templates@, d),
            tv == grids_view(templates@),
            tv == all_templates(must_use@, d),
            forall|q: int|
                0 <= q < out@.len() ==> {
                    let m = (#[trigger] out@[q])@;
                    &&& out@[q].dims == d
                    &&& m.len() == d.size()
                    &&& all_letters(m)
                    &&& valid_rect(m, d, words)
                    &&& exists|ti: int| 0 <= ti < tv.len() && words_match(#[trigger] tv[ti], m)
                },
            forall|ti: int, m: Seq<EncodedChar>|
                0 <= ti < i && m.len() == d.size() && all_letters(m) && #[trigger] words_match(
                    tv[ti],
                    m,
                ) && valid_rect(m, d, words) ==> grids_view(out@).contains(m),
    {
        let t = &templates[i];
        let pm = make_prefix_map(t, wordlist);
        let found = search_template(t, &pm, wordlist);
        let ghost res = template_results(pm.rows_view(), pm.cols_view(), d, t@, words);
        let ghost before = out@;
        let mut j: usize = 0;
        while j < found.len()
            invariant
                wordlist.wf(),
                d == wordlist.dims,
                words == wordlist.view_seq(),
                tv == grids_view(templates@),
                i < tv.len(),
                tv[i as int] == t@,
                t.dims == d,
                t.wf(),
                word_wf(t@),
                grids_view(found@) == res,
                res == template_results(pm.rows_view(), pm.cols_view(), d, t@, words),
                forall|q: int| 0 <= q < found@.len() ==> (#[trigger] found@[q]).dims == d && found@[q].wf(),
                j <= found@.len(),
                out@.len() == before.len() + j,
                forall|q: int| 0 <= q < before.len() ==> #[trigger] out@[q] == before[q],
                forall|q: int|
                    0 <= q < j ==> (#[trigger] out@[before.len() + q])@ == found@[q]@ && out@[before.len()
                        + q].dims == d,
                forall|q: int|
                    0 <= q < before.len() ==> {
                        let m = (#[trigger] before[q])@;
                        &&& before[q].dims == d
                        &&& m.len() == d.size()
                        &&& all_letters(m)
                        &&& valid_rect(m, d, words)
                        &&& exists|ti: int| 0 <= ti < tv.len() && words_match(#[trigger] tv[ti], m)
                    },
            decreases found@.len() - j,
        {
            out.push(found[j].copy());
            j = j + 1;
        }
        proof {
            assert(grids_view(out@) =~= grids_view(before) + grids_view(found@)) by {
                assert forall|q: int| 0 <= q < out@.len() implies #[trigger] grids_view(out@)[q] == (
                grids_view(before) + grids_view(found@))[q] by {
                    if q >= before.len() {
                        assert(out@[before.len() + (q - before.len())]@ == found@[q - before.len()]@);
                    }
                }
            }
            let cr = canon_rows(t@, d, words);
            let cc = canon_cols(t@, d, words);
            assert(index_exact(cr, words, index_patterns(t@, d, true), d.width as nat));
            assert(index_exact(cc, words, index_patterns(t@, d, false), d.height as nat));
            lemma_template_results_agree(pm.rows_view(), pm.cols_view(), cr, cc, d, t@, words);
            let sub = tv.subrange(0, i + 1);
            assert(sub.drop_last() =~= tv.subrange(0, i as int));
            assert(sub.last() == t@);
            assert(grids_view(out@) == rectangles_of(tv.subrange(0, i + 1), d, words));
            assert forall|q: int| 0 <= q < out@.len() implies {
                let m = (#[trigger] out@[q])@;
                &&& out@[q].dims == d
                &&& m.len() == d.size()
                &&& all_letters(m)
                &&& valid_rect(m, d, words)
                &&& exists|ti: int| 0 <= ti < tv.len() && words_match(#[trigger] tv[ti], m)
            } by {
                if q >= before.len() {
                    let k = q - before.len();
                    assert(out@[before.len() + k]@ == found@[k]@);
                    assert(out@[q]@ == found@[k]@);
                    assert(res[k] == found@[k]@);
                    assert(res.contains(found@[k]@));
                    lemma_results_round_trip(pm.rows_view(), pm.cols_view(), d, t@, words, found@[k]@);
                    assert(words_match(tv[i as int], out@[q]@));
                } else {
                    assert(out@[q] == before[q]);
                }
            }
            assert forall|ti: int, m: Seq<EncodedChar>|
                0 <= ti < i + 1 && m.len() == d.size() && all_letters(m) && #[trigger] words_match(
                    tv[ti],
                    m,
                ) && valid_rect(m, d, words) implies grids_view(out@).contains(m) by {
                if ti < i {
                    let k = choose|k: int| 0 <= k < grids_view(before).len() && grids_view(before)[k] == m;
                    assert(grids_view(out@)[k] == m);
                } else {
                    lemma_results_complete(pm.rows_view(), pm.cols_view(), d, t@, words, m);
                    let k = choose|k: int| 0 <= k < res.len() && res[k] == m;
                    assert(out@[before.len() + k]@ == found@[k]@);
                    assert(grids_view(out@)[before.len() + k] == m);
                }
            }
        }
    }
    assert(tv.subrange(0, tv.len() as int) =~= tv);
    out
}

} // verus!
