use vstd::prelude::*;

use crate::dim_col;
use crate::dim_row;
use crate::matrix::{
    line_count, line_len, line_of, line_word, with_line, write_line, Dims, GenericMatrix, WordMatrix,
};
use crate::search::grids_view;
use crate::wordstuffs::{overlay, word_wf, words_match, EitherWord, Word};
use crate::echar::EncodedChar;

verus! {

/// The grids made by laying `w` over one of the first `n` lines of `t`
/// (rows when `is_row`) that it matches, in line order: the word's letters
/// go into the line, its nulls keep what the line held.
pub open spec fn place_in(t: Seq<EncodedChar>, d: Dims, is_row: bool, w: Seq<EncodedChar>, n: int) -> Seq<
    Seq<EncodedChar>,
>
    decreases n,
{
    if n <= 0 {
        Seq::empty()
    } else {
        place_in(t, d, is_row, w, n - 1) + if words_match(w, line_of(t, d, is_row, n - 1)) {
            seq![with_line(t, d, is_row, n - 1, overlay(w, line_of(t, d, is_row, n - 1)))]
        } else {
            Seq::empty()
        }
    }
}

/// `place_in` over every line, for each grid of `ts` in turn.
pub open spec fn place_all(ts: Seq<Seq<EncodedChar>>, d: Dims, is_row: bool, w: Seq<EncodedChar>) -> Seq<
    Seq<EncodedChar>,
>
    decreases ts.len(),
{
    if ts.len() == 0 {
        Seq::empty()
    } else {
        place_all(ts.drop_last(), d, is_row, w) + place_in(
            ts.last(),
            d,
            is_row,
            w,
            line_count(d, is_row),
        )
    }
}

/// Every way to lay `w` over a row, then over a column, of each grid.
pub open spec fn place_word(ts: Seq<Seq<EncodedChar>>, d: Dims, w: Seq<EncodedChar>) -> Seq<
    Seq<EncodedChar>,
> {
    (if w.len() == d.width {
        place_all(ts, d, true, w)
    } else {
        Seq::empty()
    }) + (if w.len() == d.height {
        place_all(ts, d, false, w)
    } else {
        Seq::empty()
    })
}

/// The templates for must-use words `mu`, placed from the last to the
/// first, starting from the grids `ts`.
pub open spec fn spec_templates(mu: Seq<Seq<EncodedChar>>, ts: Seq<Seq<EncodedChar>>, d: Dims) -> Seq<
    Seq<EncodedChar>,
>
    decreases mu.len(),
{
    if mu.len() == 0 {
        ts
    } else {
        spec_templates(mu.drop_last(), place_word(ts, d, mu.last()), d)
    }
}

pub open spec fn either_view(v: Seq<EitherWord>) -> Seq<Seq<EncodedChar>> {
    v.map_values(|e: EitherWord| e.spec_word())
}

/// Every grid of `ts` is a well-formed grid of dimensions `d` holding
/// letters and nulls.
pub open spec fn grids_ok(ts: Seq<WordMatrix>, d: Dims) -> bool {
    forall|i: int| 0 <= i < ts.len() ==> (#[trigger] ts[i]).wf() && ts[i].dims == d && word_wf(ts[i]@)
}

fn place_dim(out: &mut Vec<WordMatrix>, ts: &Vec<WordMatrix>, d: Dims, is_row: bool, w: &Word)
    requires
        d.wf(),
        grids_ok(ts@, d),
        grids_ok(old(out)@, d),
        word_wf(w@),
        w@.len() == line_len(d, is_row),
    ensures
        grids_ok(final(out)@, d),
        grids_view(final(out)@) == grids_view(old(out)@) + place_all(grids_view(ts@), d, is_row, w@),
{
    let count = if is_row {
        d.height
    } else {
        d.width
    };
    let ghost start = grids_view(out@);
    let ghost tv = grids_view(ts@);
    let mut ti: usize = 0;
    assert(tv.subrange(0, 0) =~= Seq::<Seq<EncodedChar>>::empty());
    assert(grids_view(out@) =~= start + place_all(tv.subrange(0, 0), d, is_row, w@));
    while ti < ts.len()
        invariant
            d.wf(),
            grids_ok(ts@, d),
            grids_ok(out@, d),
            word_wf(w@),
            w@.len() == line_len(d, is_row),
            count == line_count(d, is_row),
            tv == grids_view(ts@),
            ti <= ts@.len(),
            grids_view(out@) == start + place_all(tv.subrange(0, ti as int), d, is_row, w@),
        decreases ts@.len() - ti,
    {
        let t = &ts[ti];
        let ghost base = grids_view(out@);
        let mut i: usize = 0;
        while i < count
            invariant
                d.wf(),
                t.wf(),
                t.dims == d,
                word_wf(t@),
                grids_ok(out@, d),
                word_wf(w@),
                w@.len() == line_len(d, is_row),
                count == line_count(d, is_row),
                i <= count,
                grids_view(out@) == base + place_in(t@, d, is_row, w@, i as int),
            decreases count - i,
        {
            let line = line_word(t, is_row, i);
            if w.is_match(&line) {
                let laid = w.overlay(&line);
                let mut m = t.copy();
                write_line(&mut m, is_row, i, &laid);
                let ghost before = out@;
                proof {
                    assert forall|k: int| 0 <= k < m@.len() implies (#[trigger] m@[k]).wf() by {
                        crate::matrix::lemma_flat_split(d, k);
                        if crate::matrix::on_line(d, is_row, i as int, k) {
                            let q = crate::matrix::pos_in_line(d, is_row, k);
                            assert(w@[q].wf());
                            if is_row {
                                crate::matrix::lemma_cell_in_grid(d, i as int, q);
                            } else {
                                crate::matrix::lemma_cell_in_grid(d, q, i as int);
                            }
                            assert(laid@[q].wf());
                        }
                    }
                }
                out.push(m);
                proof {
                    assert(grids_view(out@) =~= grids_view(before).push(m@));
                    assert(grids_view(out@) =~= base + place_in(t@, d, is_row, w@, i + 1));
                }
            } else {
                assert(place_in(t@, d, is_row, w@, i + 1) =~= place_in(t@, d, is_row, w@, i as int));
            }
            i = i + 1;
        }
        proof {
            let sub = tv.subrange(0, ti + 1);
            assert(sub.drop_last() =~= tv.subrange(0, ti as int));
            assert(sub.last() == t@);
        }
        ti = ti + 1;
    }
    assert(tv.subrange(0, ts@.len() as int) =~= tv);
}

/// Every way to place one must-use word into each template.
fn place_word_exec(ts: &Vec<WordMatrix>, d: Dims, e: &EitherWord) -> (r: Vec<WordMatrix>)
    requires
        d.wf(),
        grids_ok(ts@, d),
        word_wf(e.spec_word()),
    ensures
        grids_ok(r@, d),
        grids_view(r@) == place_word(grids_view(ts@), d, e.spec_word()),
{
    let mut out: Vec<WordMatrix> = Vec::new();
    assert(grids_view(out@) =~= Seq::<Seq<EncodedChar>>::empty());
    if let Some(w) = dim_row::get_from_either(e, d) {
        place_dim(&mut out, ts, d, true, &w);
    }
    let ghost mid = grids_view(out@);
    if let Some(w) = dim_col::get_from_either(e, d) {
        place_dim(&mut out, ts, d, false, &w);
    }
    assert(grids_view(out@) =~= place_word(grids_view(ts@), d, e.spec_word()));
    out
}

/// From the must-use words, last to first, every placement-compatible
/// starting grid: each word is laid over every row or column (of its
/// length) of each grid so far whose content it matches; a wildcard in the
/// word keeps the letter already there.
pub fn make_templates(must_use: &[EitherWord], from_templates: Vec<WordMatrix>, dims: Dims) -> (r: Vec<
    WordMatrix,
>)
    requires
        dims.wf(),
        grids_ok(from_templates@, dims),
        forall|i: int| 0 <= i < must_use@.len() ==> word_wf((#[trigger] must_use@[i]).spec_word()),
    ensures
        grids_ok(r@, dims),
        grids_view(r@) == spec_templates(either_view(must_use@), grids_view(from_templates@), dims),
{
    let ghost mu = either_view(must_use@);
    let mut cur = from_templates;
    let mut j: usize = must_use.len();
    assert(mu.subrange(0, j as int) =~= mu);
    while j > 0
        invariant
            dims.wf(),
            j <= must_use@.len(),
            mu == either_view(must_use@),
            forall|i: int| 0 <= i < must_use@.len() ==> word_wf((#[trigger] must_use@[i]).spec_word()),
            grids_ok(cur@, dims),
            spec_templates(mu, grids_view(from_templates@), dims) == spec_templates(
                mu.subrange(0, j as int),
                grids_view(cur@),
                dims,
            ),
        decreases j,
    {
        let next = place_word_exec(&cur, dims, &must_use[j - 1]);
        proof {
            let sub = mu.subrange(0, j as int);
            assert(sub.drop_last() =~= mu.subrange(0, j - 1));
            assert(sub.last() == must_use@[j - 1].spec_word());
        }
        cur = next;
        j = j - 1;
    }
    cur
}

} // verus!
