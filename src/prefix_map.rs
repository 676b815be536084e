use vstd::prelude::*;

use fnv::{FnvHashMap, FnvHashSet};

use crate::charset::{lemma_empty_has_nothing, lemma_set_bit, CharSet};
use crate::echar::{chars_match, null_char, EncodedChar, CHAR_SET_SIZE};
use crate::matrix::{line_count, line_len, line_of, line_word, Dims, WordMatrix, MAX_SIDE};
use crate::wordlist::{fits, WordList};
use crate::wordstuffs::{
    all_letters, entries_view, mask, prefix_entries, spec_prefixes, word_wf, words_match, Word,
};

verus! {

#[verifier::external_type_specification]
#[verifier::external_body]
pub struct ExFnvHasher(fnv::FnvHasher);

#[verifier::external_type_specification]
#[verifier::external_body]
#[verifier::reject_recursive_types(H)]
pub struct ExBuildHasherDefault<H>(std::hash::BuildHasherDefault<H>);

/// Relies on std's `HashMap::get`, under fnv's hasher (a fixed function of
/// the key): the value stored under `k`, if any.
#[verifier::external_body]
fn table_get(m: &FnvHashMap<u128, CharSet>, k: u128) -> (r: Option<CharSet>)
    ensures
        r == (if m@.contains_key(k) {
            Some(m@[k])
        } else {
            None
        }),
{
    m.get(&k).copied()
}

/// Relies on std's `HashMap::insert`, under fnv's hasher: afterwards `k`
/// maps to `v` and every other key is unchanged.
#[verifier::external_body]
fn table_insert(m: &mut FnvHashMap<u128, CharSet>, k: u128, v: CharSet)
    ensures
        final(m)@ == old(m)@.insert(k, v),
{
    m.insert(k, v);
}

/// Relies on std's `HashSet::contains`, under fnv's hasher.
#[verifier::external_body]
pub(crate) fn key_set_contains(s: &FnvHashSet<u128>, k: u128) -> (r: bool)
    ensures
        r == s@.contains(k),
{
    s.contains(&k)
}

/// Relies on std's `HashSet::insert`, under fnv's hasher: the set gains `k`,
/// and the result says whether it was new.
#[verifier::external_body]
pub(crate) fn key_set_insert(s: &mut FnvHashSet<u128>, k: u128) -> (r: bool)
    ensures
        final(s)@ == old(s)@.insert(k),
        r == !old(s)@.contains(k),
{
    s.insert(k)
}

/// Digit of a character in a packed key: letters 1..=32, anything else 33.
pub open spec fn key_digit(e: EncodedChar) -> int {
    if e.0 < CHAR_SET_SIZE {
        e.0 + 1
    } else {
        33
    }
}

/// A pattern packed into an integer, six bits per position, last position
/// lowest.
pub open spec fn pack(w: Seq<EncodedChar>) -> int
    decreases w.len(),
{
    if w.len() == 0 {
        0
    } else {
        pack(w.drop_last()) * 64 + key_digit(w.last())
    }
}

/// `64` to the power `n`.
pub open spec fn key_cap(n: nat) -> int
    decreases n,
{
    if n == 0 {
        1
    } else {
        key_cap((n - 1) as nat) * 64
    }
}

proof fn lemma_pack_bound(w: Seq<EncodedChar>)
    ensures
        0 <= pack(w) < key_cap(w.len()),
    decreases w.len(),
{
    if w.len() > 0 {
        lemma_pack_bound(w.drop_last());
        let a = pack(w.drop_last());
        let c = key_cap((w.len() - 1) as nat);
        assert(a * 64 + key_digit(w.last()) < c * 64) by (nonlinear_arith)
            requires
                0 <= a < c,
                1 <= key_digit(w.last()) <= 33,
        ;
    }
}

proof fn lemma_key_cap_monotone(a: nat, b: nat)
    requires
        a <= b,
    ensures
        1 <= key_cap(a) <= key_cap(b),
    decreases b,
{
    if b > a {
        lemma_key_cap_monotone(a, (b - 1) as nat);
    } else if a > 0 {
        lemma_key_cap_monotone((a - 1) as nat, (a - 1) as nat);
    }
}

/// Packed keys of patterns of at most `MAX_SIDE` positions fit in `u128`.
pub proof fn lemma_pack_fits(w: Seq<EncodedChar>)
    requires
        w.len() <= MAX_SIDE,
    ensures
        0 <= pack(w) < 0x1_0000_0000_0000_0000_0000_0000,
{
    lemma_pack_bound(w);
    lemma_key_cap_monotone(w.len(), 16);
    reveal_with_fuel(key_cap, 17);
}

/// Packing is injective on patterns of letters and nulls.
pub proof fn lemma_pack_injective(a: Seq<EncodedChar>, b: Seq<EncodedChar>)
    requires
        word_wf(a),
        word_wf(b),
        pack(a) == pack(b),
    ensures
        a == b,
    decreases a.len(),
{
    if a.len() == 0 || b.len() == 0 {
        if a.len() > 0 {
            lemma_pack_bound(a.drop_last());
        }
        if b.len() > 0 {
            lemma_pack_bound(b.drop_last());
        }
        assert(a.len() == 0 && b.len() == 0);
        assert(a =~= b);
    } else {
        lemma_pack_bound(a.drop_last());
        lemma_pack_bound(b.drop_last());
        let (pa, pb) = (pack(a.drop_last()), pack(b.drop_last()));
        let (da, db) = (key_digit(a.last()), key_digit(b.last()));
        vstd::arithmetic::div_mod::lemma_fundamental_div_mod_converse(pack(a), 64, pa, da);
        vstd::arithmetic::div_mod::lemma_fundamental_div_mod_converse(pack(b), 64, pb, db);
        assert(a.last().wf() && b.last().wf());
        assert(a.last() == b.last());
        assert(word_wf(a.drop_last()) && word_wf(b.drop_last()));
        lemma_pack_injective(a.drop_last(), b.drop_last());
        assert(a =~= a.drop_last().push(a.last()));
        assert(b =~= b.drop_last().push(b.last()));
    }
}

/// The packed key of a pattern.
pub fn pattern_key(w: &Word) -> (r: u128)
    requires
        w@.len() <= MAX_SIDE,
    ensures
        r == pack(w@),
{
    let n = w.0.len();
    let mut acc: u128 = 0;
    let mut i: usize = 0;
    while i < n
        invariant
            n == w@.len(),
            n <= MAX_SIDE,
            i <= n,
            acc == pack(w@.subrange(0, i as int)),
        decreases n - i,
    {
        let e = w.0[i];
        let d: u128 = if (e.0 as usize) < CHAR_SET_SIZE {
            e.0 as u128 + 1
        } else {
            33
        };
        let ghost next = w@.subrange(0, i + 1);
        assert(next.drop_last() =~= w@.subrange(0, i as int));
        proof {
            lemma_pack_fits(next);
        }
        acc = acc * 64 + d;
        i = i + 1;
    }
    assert(w@.subrange(0, n as int) =~= w@);
    acc
}

/// The set stored for pattern `p`, or the empty set.
pub open spec fn lookup(m: Map<u128, CharSet>, p: Seq<EncodedChar>) -> CharSet {
    if m.contains_key(pack(p) as u128) {
        m[pack(p) as u128]
    } else {
        CharSet(0)
    }
}

/// The letters a map of one orientation stores for pattern `p` (empty when
/// the pattern is absent).
pub fn lookup_in(m: &FnvHashMap<u128, CharSet>, p: &Word) -> (r: CharSet)
    requires
        p@.len() <= MAX_SIDE,
    ensures
        r == lookup(m@, p@),
{
    let k = pattern_key(p);
    proof {
        lemma_pack_fits(p@);
    }
    match table_get(m, k) {
        Some(cs) => cs,
        None => CharSet(0),
    }
}

/// The prefix-continuation index: for rows and for columns, a map from the
/// packed key of a partial pattern to the letters that may fill its first
/// null position.
pub struct WordPrefixMap {
    pub inner_rows: FnvHashMap<u128, CharSet>,
    pub inner_cols: FnvHashMap<u128, CharSet>,
}

impl WordPrefixMap {
    pub open spec fn rows_view(&self) -> Map<u128, CharSet> {
        self.inner_rows@
    }

    pub open spec fn cols_view(&self) -> Map<u128, CharSet> {
        self.inner_cols@
    }

    /// The map of one orientation.
    pub open spec fn dim_view(&self, is_row: bool) -> Map<u128, CharSet> {
        if is_row {
            self.rows_view()
        } else {
            self.cols_view()
        }
    }

    /// An index with no patterns.
    pub fn new() -> (r: WordPrefixMap)
        ensures
            r.rows_view() == Map::<u128, CharSet>::empty(),
            r.cols_view() == Map::<u128, CharSet>::empty(),
    {
        WordPrefixMap { inner_rows: FnvHashMap::default(), inner_cols: FnvHashMap::default() }
    }

    pub fn rows(&self) -> (r: &FnvHashMap<u128, CharSet>)
        ensures
            r@ == self.rows_view(),
    {
        &self.inner_rows
    }

    pub fn cols(&self) -> (r: &FnvHashMap<u128, CharSet>)
        ensures
            r@ == self.cols_view(),
    {
        &self.inner_cols
    }

    /// The letters stored for pattern `p` in one orientation (empty when
    /// the pattern is absent).
    pub fn get(&self, is_row: bool, p: &Word) -> (r: CharSet)
        requires
            p@.len() <= MAX_SIDE,
        ensures
            r == lookup(self.dim_view(is_row), p@),
    {
        if is_row {
            lookup_in(&self.inner_rows, p)
        } else {
            lookup_in(&self.inner_cols, p)
        }
    }

    /// Adds letter `c` to the set stored for pattern `p` in one orientation.
    pub fn add(&mut self, is_row: bool, p: &Word, c: EncodedChar)
        requires
            p@.len() <= MAX_SIDE,
            c.0 < CHAR_SET_SIZE,
        ensures
            final(self).dim_view(!is_row) == old(self).dim_view(!is_row),
            final(self).dim_view(is_row) == old(self).dim_view(is_row).insert(
                pack(p@) as u128,
                CharSet(lookup(old(self).dim_view(is_row), p@).0 | (1u32 << c.0)),
            ),
    {
        let k = pattern_key(p);
        proof {
            lemma_pack_fits(p@);
        }
        let mut cs = self.get(is_row, p);
        cs.set(c);
        if is_row {
            table_insert(&mut self.inner_rows, k, cs);
        } else {
            table_insert(&mut self.inner_cols, k, cs);
        }
    }
}

/// The entries of `prefixes(w, p)` from position `lo` on are the pairs
/// (mask at `i`, letter at `i`) for the null positions `i >= lo` of `p`.
pub proof fn lemma_prefix_entry_form(
    w: Seq<EncodedChar>,
    p: Seq<EncodedChar>,
    lo: int,
    x: (Seq<EncodedChar>, EncodedChar),
)
    requires
        p.len() == w.len(),
        0 <= lo,
    ensures
        prefix_entries(w, p, lo).contains(x) <==> exists|i: int|
            lo <= i < w.len() && p[i] == null_char() && x == (mask(w, p, i), w[i]),
    decreases w.len() - lo,
{
    if lo < w.len() {
        lemma_prefix_entry_form(w, p, lo + 1, x);
        let rest = prefix_entries(w, p, lo + 1);
        let all = prefix_entries(w, p, lo);
        if p[lo] == null_char() {
            let here = (mask(w, p, lo), w[lo]);
            assert(all == rest.push(here));
            if all.contains(x) {
                let j = choose|j: int| 0 <= j < all.len() && all[j] == x;
                if j < rest.len() {
                    assert(rest[j] == x);
                }
            }
            if rest.contains(x) {
                let j = choose|j: int| 0 <= j < rest.len() && rest[j] == x;
                assert(all[j] == x);
            }
            if x == here {
                assert(all[rest.len() as int] == x);
            }
        }
    }
}

/// The lines of one orientation of a grid.
pub open spec fn dim_patterns(m: Seq<EncodedChar>, d: Dims, is_row: bool) -> Seq<Seq<EncodedChar>> {
    Seq::new(line_count(d, is_row) as nat, |i: int| line_of(m, d, is_row, i))
}

/// The template lines an orientation's index is built from: its own lines,
/// or, in a square grid, the rows and then the columns for both.
pub open spec fn index_patterns(m: Seq<EncodedChar>, d: Dims, is_row: bool) -> Seq<Seq<EncodedChar>> {
    if d.width == d.height {
        dim_patterns(m, d, true) + dim_patterns(m, d, false)
    } else {
        dim_patterns(m, d, is_row)
    }
}

pub open spec fn words_view(v: Seq<Word>) -> Seq<Seq<EncodedChar>> {
    v.map_values(|w: Word| w@)
}

proof fn lemma_patterns_wf(m: Seq<EncodedChar>, d: Dims, is_row: bool)
    requires
        d.wf(),
        m.len() == d.size(),
        word_wf(m),
    ensures
        forall|j: int| 0 <= j < dim_patterns(m, d, is_row).len() ==> word_wf(#[trigger] dim_patterns(m, d, is_row)[j]),
{
    let pv = dim_patterns(m, d, is_row);
    assert forall|j: int| 0 <= j < pv.len() implies word_wf(#[trigger] pv[j]) by {
        assert forall|q: int| 0 <= q < pv[j].len() implies (#[trigger] pv[j][q]).wf() by {
            if is_row {
                crate::matrix::lemma_cell_in_grid(d, j, q);
            } else {
                crate::matrix::lemma_cell_in_grid(d, q, j);
            }
        }
    }
}

/// Appends the lines of one orientation of `template`.
fn push_lines(pats: &mut Vec<Word>, template: &WordMatrix, is_row: bool)
    requires
        template.wf(),
    ensures
        words_view(final(pats)@) == words_view(old(pats)@) + dim_patterns(template@, template.dims, is_row),
{
    let d = template.dims;
    let count = if is_row {
        d.height
    } else {
        d.width
    };
    let ghost start = words_view(pats@);
    let ghost pv = dim_patterns(template@, d, is_row);
    for i in 0..count
        invariant
            template.wf(),
            d == template.dims,
            count == line_count(d, is_row),
            pv == dim_patterns(template@, d, is_row),
            words_view(pats@) == start + pv.subrange(0, i as int),
    {
        let ghost before = pats@;
        let w = line_word(template, is_row, i);
        assert(w@ == pv[i as int]);
        pats.push(w);
        assert(words_view(pats@) =~= words_view(before).push(w@));
        assert(words_view(pats@) =~= start + pv.subrange(0, i + 1));
    }
    assert(pv.subrange(0, count as int) =~= pv);
}

/// Word `wi` has length `len`, matches pattern `ti`, and `prefixes` of the
/// two gives the pair `(p, c)`.
pub open spec fn hit(
    words: Seq<Seq<EncodedChar>>,
    pats: Seq<Seq<EncodedChar>>,
    len: nat,
    wi: int,
    ti: int,
    p: Seq<EncodedChar>,
    c: u8,
) -> bool {
    &&& words[wi].len() == len
    &&& words_match(pats[ti], words[wi])
    &&& spec_prefixes(words[wi], pats[ti]).contains((p, EncodedChar(c)))
}

/// Some word of length `len` and some pattern give the pair `(p, c)`.
pub open spec fn index_entry(
    words: Seq<Seq<EncodedChar>>,
    pats: Seq<Seq<EncodedChar>>,
    len: nat,
    p: Seq<EncodedChar>,
    c: u8,
) -> bool {
    exists|wi: int, ti: int|
        0 <= wi < words.len() && 0 <= ti < pats.len() && #[trigger] hit(words, pats, len, wi, ti, p, c)
}

/// The map of one orientation is exactly what `words` and `pats` give:
/// letter `c` is stored for pattern `p` iff `index_entry`, and every key is
/// the key of such a pattern.
pub open spec fn index_exact(
    m: Map<u128, CharSet>,
    words: Seq<Seq<EncodedChar>>,
    pats: Seq<Seq<EncodedChar>>,
    len: nat,
) -> bool {
    &&& forall|p: Seq<EncodedChar>, c: u8|
        word_wf(p) && p.len() == len && c < CHAR_SET_SIZE ==> (#[trigger] lookup(m, p).contains(c)
            <==> index_entry(words, pats, len, p, c))
    &&& forall|key: u128|
        #[trigger] m.contains_key(key) ==> exists|p: Seq<EncodedChar>, c: u8|
            word_wf(p) && p.len() == len && c < CHAR_SET_SIZE && pack(p) == key && index_entry(
                words,
                pats,
                len,
                p,
                c,
            )
}

/// The pairs the builder has added once it stands at word `wi0`, pattern
/// `ti0`, entry `e0`.
spec fn seen(
    words: Seq<Seq<EncodedChar>>,
    pats: Seq<Seq<EncodedChar>>,
    len: nat,
    wi0: int,
    ti0: int,
    e0: int,
    p: Seq<EncodedChar>,
    c: u8,
) -> bool {
    ||| exists|wi: int, ti: int|
        0 <= wi < wi0 && 0 <= ti < pats.len() && #[trigger] hit(words, pats, len, wi, ti, p, c)
    ||| exists|ti: int| 0 <= ti < ti0 && #[trigger] hit(words, pats, len, wi0, ti, p, c)
    ||| (0 <= wi0 < words.len() && 0 <= ti0 < pats.len() && words[wi0].len() == len
        && words_match(pats[ti0], words[wi0]) && exists|e: int|
        0 <= e < e0 && #[trigger] spec_prefixes(words[wi0], pats[ti0])[e] == (p, EncodedChar(c)))
}

spec fn holds(
    m: Map<u128, CharSet>,
    words: Seq<Seq<EncodedChar>>,
    pats: Seq<Seq<EncodedChar>>,
    len: nat,
    wi0: int,
    ti0: int,
    e0: int,
) -> bool {
    &&& forall|p: Seq<EncodedChar>, c: u8|
        word_wf(p) && p.len() == len && c < CHAR_SET_SIZE ==> (#[trigger] lookup(m, p).contains(c)
            <==> seen(words, pats, len, wi0, ti0, e0, p, c))
    &&& forall|key: u128|
        #[trigger] m.contains_key(key) ==> exists|p: Seq<EncodedChar>, c: u8|
            word_wf(p) && p.len() == len && c < CHAR_SET_SIZE && pack(p) == key && seen(
                words,
                pats,
                len,
                wi0,
                ti0,
                e0,
                p,
                c,
            )
}

proof fn lemma_holds_transfer(
    m: Map<u128, CharSet>,
    words: Seq<Seq<EncodedChar>>,
    pats: Seq<Seq<EncodedChar>>,
    len: nat,
    a: (int, int, int),
    b: (int, int, int),
)
    requires
        holds(m, words, pats, len, a.0, a.1, a.2),
        forall|p: Seq<EncodedChar>, c: u8|
            seen(words, pats, len, a.0, a.1, a.2, p, c) == seen(words, pats, len, b.0, b.1, b.2, p, c),
    ensures
        holds(m, words, pats, len, b.0, b.1, b.2),
{
    assert forall|key: u128| #[trigger] m.contains_key(key) implies exists|p: Seq<EncodedChar>, c: u8|
        word_wf(p) && p.len() == len && c < CHAR_SET_SIZE && pack(p) == key && seen(
            words,
            pats,
            len,
            b.0,
            b.1,
            b.2,
            p,
            c,
        ) by {
        let (p, c) = choose|p: Seq<EncodedChar>, c: u8|
            word_wf(p) && p.len() == len && c < CHAR_SET_SIZE && pack(p) == key && seen(
                words,
                pats,
                len,
                a.0,
                a.1,
                a.2,
                p,
                c,
            );
        assert(seen(words, pats, len, b.0, b.1, b.2, p, c));
    }
}

proof fn lemma_seen_step(
    words: Seq<Seq<EncodedChar>>,
    pats: Seq<Seq<EncodedChar>>,
    len: nat,
    wi0: int,
    ti0: int,
    e0: int,
    p: Seq<EncodedChar>,
    c: u8,
)
    requires
        0 <= wi0 < words.len(),
        0 <= ti0 < pats.len(),
        words[wi0].len() == len,
        words_match(pats[ti0], words[wi0]),
        0 <= e0 < spec_prefixes(words[wi0], pats[ti0]).len(),
    ensures
        seen(words, pats, len, wi0, ti0, e0 + 1, p, c) == (seen(words, pats, len, wi0, ti0, e0, p, c)
            || spec_prefixes(words[wi0], pats[ti0])[e0] == (p, EncodedChar(c))),
{
    let list = spec_prefixes(words[wi0], pats[ti0]);
    let e1 = e0 + 1;
    if exists|e: int| 0 <= e < e1 && #[trigger] list[e] == (p, EncodedChar(c)) {
        let e = choose|e: int| 0 <= e < e1 && #[trigger] list[e] == (p, EncodedChar(c));
        if e < e0 {
            assert(exists|e: int| 0 <= e < e0 && #[trigger] list[e] == (p, EncodedChar(c)));
        }
    }
    if exists|e: int| 0 <= e < e0 && #[trigger] list[e] == (p, EncodedChar(c)) {
        let e = choose|e: int| 0 <= e < e0 && #[trigger] list[e] == (p, EncodedChar(c));
        assert(0 <= e < e1 && list[e] == (p, EncodedChar(c)));
    }
    if list[e0] == (p, EncodedChar(c)) {
        assert(0 <= e0 < e1 && list[e0] == (p, EncodedChar(c)));
    }
}

/// Adding the pair at entry `e0` moves the builder to entry `e0 + 1`.
proof fn lemma_holds_add(
    m: Map<u128, CharSet>,
    words: Seq<Seq<EncodedChar>>,
    pats: Seq<Seq<EncodedChar>>,
    len: nat,
    wi0: int,
    ti0: int,
    e0: int,
)
    requires
        holds(m, words, pats, len, wi0, ti0, e0),
        len <= MAX_SIDE,
        0 <= wi0 < words.len(),
        0 <= ti0 < pats.len(),
        words[wi0].len() == len,
        all_letters(words[wi0]),
        word_wf(pats[ti0]),
        words_match(pats[ti0], words[wi0]),
        0 <= e0 < spec_prefixes(words[wi0], pats[ti0]).len(),
    ensures
        ({
            let (p0, ch) = spec_prefixes(words[wi0], pats[ti0])[e0];
            &&& word_wf(p0)
            &&& p0.len() == len
            &&& ch.0 < CHAR_SET_SIZE
            &&& holds(
                m.insert(pack(p0) as u128, CharSet(lookup(m, p0).0 | (1u32 << ch.0))),
                words,
                pats,
                len,
                wi0,
                ti0,
                e0 + 1,
            )
        }),
{
    let w = words[wi0];
    let t = pats[ti0];
    let list = spec_prefixes(w, t);
    let (p0, ch) = list[e0];
    let c0 = ch.0;
    assert(list.contains((p0, ch)));
    lemma_prefix_entry_form(w, t, 0, (p0, ch));
    let i = choose|i: int| 0 <= i < w.len() && t[i] == null_char() && (p0, ch) == (mask(w, t, i), w[i]);
    assert(w[i].is_letter());
    assert forall|j: int| 0 <= j < p0.len() implies (#[trigger] p0[j]).wf() by {
        assert(w[j].is_letter());
    }
    lemma_pack_fits(p0);
    let e1 = e0 + 1;
    let m2 = m.insert(pack(p0) as u128, CharSet(lookup(m, p0).0 | (1u32 << c0)));
    assert forall|p: Seq<EncodedChar>, c: u8|
        word_wf(p) && p.len() == len && c < CHAR_SET_SIZE implies (#[trigger] lookup(m2, p).contains(c)
        <==> seen(words, pats, len, wi0, ti0, e1, p, c)) by {
        lemma_pack_fits(p);
        lemma_seen_step(words, pats, len, wi0, ti0, e0, p, c);
        if pack(p) == pack(p0) {
            lemma_pack_injective(p, p0);
            lemma_set_bit(lookup(m, p0).0, c0, c);
            assert(lookup(m2, p) == CharSet(lookup(m, p0).0 | (1u32 << c0)));
            assert(CharSet(lookup(m, p0).0) == lookup(m, p0));
        } else {
            assert(lookup(m2, p) == lookup(m, p));
        }
    }
    assert forall|key: u128| #[trigger] m2.contains_key(key) implies exists|p: Seq<EncodedChar>, c: u8|
        word_wf(p) && p.len() == len && c < CHAR_SET_SIZE && pack(p) == key && seen(
            words,
            pats,
            len,
            wi0,
            ti0,
            e1,
            p,
            c,
        ) by {
        if key == pack(p0) as u128 {
            lemma_seen_step(words, pats, len, wi0, ti0, e0, p0, c0);
            assert(seen(words, pats, len, wi0, ti0, e1, p0, c0));
        } else {
            assert(m.contains_key(key));
            let (p, c) = choose|p: Seq<EncodedChar>, c: u8|
                word_wf(p) && p.len() == len && c < CHAR_SET_SIZE && pack(p) == key && seen(
                    words,
                    pats,
                    len,
                    wi0,
                    ti0,
                    e0,
                    p,
                    c,
                );
            lemma_seen_step(words, pats, len, wi0, ti0, e0, p, c);
            assert(seen(words, pats, len, wi0, ti0, e1, p, c));
        }
    }
}

/// Past the last entry of a matching pair, on to the next pattern.
proof fn lemma_seen_next_pattern(
    words: Seq<Seq<EncodedChar>>,
    pats: Seq<Seq<EncodedChar>>,
    len: nat,
    wi0: int,
    ti0: int,
    p: Seq<EncodedChar>,
    c: u8,
)
    requires
        0 <= wi0 < words.len(),
        0 <= ti0 < pats.len(),
    ensures
        ({
            let e_end = if words[wi0].len() == len && words_match(pats[ti0], words[wi0]) {
                spec_prefixes(words[wi0], pats[ti0]).len() as int
            } else {
                0
            };
            seen(words, pats, len, wi0, ti0, e_end, p, c) == seen(words, pats, len, wi0, ti0 + 1, 0, p, c)
        }),
{
    let list = spec_prefixes(words[wi0], pats[ti0]);
    let ti1 = ti0 + 1;
    let matched = words[wi0].len() == len && words_match(pats[ti0], words[wi0]);
    let e_end = if matched {
        list.len() as int
    } else {
        0
    };
    if exists|ti: int| 0 <= ti < ti1 && #[trigger] hit(words, pats, len, wi0, ti, p, c) {
        let ti = choose|ti: int| 0 <= ti < ti1 && #[trigger] hit(words, pats, len, wi0, ti, p, c);
        if ti < ti0 {
            assert(exists|ti: int| 0 <= ti < ti0 && #[trigger] hit(words, pats, len, wi0, ti, p, c));
        } else {
            assert(list.contains((p, EncodedChar(c))));
            let e = choose|e: int| 0 <= e < list.len() && list[e] == (p, EncodedChar(c));
            assert(exists|e: int| 0 <= e < e_end && #[trigger] list[e] == (p, EncodedChar(c)));
        }
    }
    if exists|ti: int| 0 <= ti < ti0 && #[trigger] hit(words, pats, len, wi0, ti, p, c) {
        let ti = choose|ti: int| 0 <= ti < ti0 && #[trigger] hit(words, pats, len, wi0, ti, p, c);
        assert(0 <= ti < ti1 && hit(words, pats, len, wi0, ti, p, c));
    }
    if matched && exists|e: int| 0 <= e < e_end && #[trigger] list[e] == (p, EncodedChar(c)) {
        let e = choose|e: int| 0 <= e < e_end && #[trigger] list[e] == (p, EncodedChar(c));
        assert(list.contains((p, EncodedChar(c))));
        assert(hit(words, pats, len, wi0, ti0, p, c));
        assert(0 <= ti0 < ti1);
    }
}

/// Past the last pattern (or past a word of another length), on to the
/// next word.
proof fn lemma_seen_next_word(
    words: Seq<Seq<EncodedChar>>,
    pats: Seq<Seq<EncodedChar>>,
    len: nat,
    wi0: int,
    p: Seq<EncodedChar>,
    c: u8,
)
    requires
        0 <= wi0 < words.len(),
    ensures
        words[wi0].len() == len ==> seen(words, pats, len, wi0, pats.len() as int, 0, p, c) == seen(
            words,
            pats,
            len,
            wi0 + 1,
            0,
            0,
            p,
            c,
        ),
        words[wi0].len() != len ==> seen(words, pats, len, wi0, 0, 0, p, c) == seen(
            words,
            pats,
            len,
            wi0 + 1,
            0,
            0,
            p,
            c,
        ),
{
    let wi1 = wi0 + 1;
    let np = pats.len() as int;
    if exists|wi: int, ti: int|
        0 <= wi < wi1 && 0 <= ti < pats.len() && #[trigger] hit(words, pats, len, wi, ti, p, c) {
        let (wi, ti) = choose|wi: int, ti: int|
            0 <= wi < wi1 && 0 <= ti < pats.len() && #[trigger] hit(words, pats, len, wi, ti, p, c);
        if wi < wi0 {
            assert(exists|wi: int, ti: int|
                0 <= wi < wi0 && 0 <= ti < pats.len() && #[trigger] hit(words, pats, len, wi, ti, p, c));
        } else {
            assert(exists|ti: int| 0 <= ti < np && #[trigger] hit(words, pats, len, wi0, ti, p, c));
        }
    }
    if exists|wi: int, ti: int|
        0 <= wi < wi0 && 0 <= ti < pats.len() && #[trigger] hit(words, pats, len, wi, ti, p, c) {
        let (wi, ti) = choose|wi: int, ti: int|
            0 <= wi < wi0 && 0 <= ti < pats.len() && #[trigger] hit(words, pats, len, wi, ti, p, c);
        assert(0 <= wi < wi1 && hit(words, pats, len, wi, ti, p, c));
    }
    if exists|ti: int| 0 <= ti < np && #[trigger] hit(words, pats, len, wi0, ti, p, c) {
        let ti = choose|ti: int| 0 <= ti < np && #[trigger] hit(words, pats, len, wi0, ti, p, c);
        assert(0 <= wi0 < wi1 && hit(words, pats, len, wi0, ti, p, c));
    }
}

/// Builds the map of one orientation from the lines of `template` and the
/// words of that orientation's length.
fn build_dim(res: &mut WordPrefixMap, is_row: bool, template: &WordMatrix, wordlist: &WordList)
    requires
        old(res).dim_view(is_row) == Map::<u128, CharSet>::empty(),
        template.wf(),
        word_wf(template@),
        wordlist.wf(),
    ensures
        final(res).dim_view(!is_row) == old(res).dim_view(!is_row),
        index_exact(
            final(res).dim_view(is_row),
            wordlist.view_seq(),
            index_patterns(template@, template.dims, is_row),
            line_len(template.dims, is_row),
        ),
{
    let d = template.dims;
    let len = if is_row {
        d.width
    } else {
        d.height
    };
    let ghost pv = index_patterns(template@, d, is_row);
    let ghost words = wordlist.view_seq();
    let ghost other = old(res).dim_view(!is_row);
    let mut pats: Vec<Word> = Vec::new();
    if d.width == d.height {
        push_lines(&mut pats, template, true);
        push_lines(&mut pats, template, false);
    } else {
        push_lines(&mut pats, template, is_row);
    }
    proof {
        lemma_patterns_wf(template@, d, true);
        lemma_patterns_wf(template@, d, false);
        assert(words_view(pats@) =~= pv);
        assert forall|j: int| 0 <= j < pv.len() implies (#[trigger] pats@[j])@ == pv[j] by {
            assert(words_view(pats@)[j] == pats@[j]@);
        }
        assert forall|j: int| 0 <= j < pv.len() implies word_wf(#[trigger] pv[j]) by {
            if d.width == d.height {
                let h = dim_patterns(template@, d, true).len() as int;
                if j >= h {
                    assert(pv[j] == dim_patterns(template@, d, false)[j - h]);
                }
            }
        }
        assert forall|p: Seq<EncodedChar>, c: u8|
            word_wf(p) && p.len() == len && c < CHAR_SET_SIZE implies (#[trigger] lookup(
            res.dim_view(is_row),
            p,
        ).contains(c) <==> seen(words, pv, len as nat, 0, 0, 0, p, c)) by {
            lemma_empty_has_nothing(c);
        }
    }
    let mut wi: usize = 0;
    while wi < wordlist.words.len()
        invariant
            wordlist.wf(),
            words == wordlist.view_seq(),
            words.len() == wordlist.words@.len(),
            wi <= words.len(),
            len == line_len(d, is_row),
            len <= MAX_SIDE,
            d.wf(),
            pats@.len() == pv.len(),
            forall|j: int| 0 <= j < pv.len() ==> (#[trigger] pats@[j])@ == pv[j],
            forall|j: int| 0 <= j < pv.len() ==> word_wf(#[trigger] pv[j]),
            res.dim_view(!is_row) == other,
            holds(res.dim_view(is_row), words, pv, len as nat, wi as int, 0, 0),
        decreases words.len() - wi,
    {
        let w = &wordlist.words[wi];
        proof {
            assert(words[wi as int] == w@);
            assert(fits(w@, wordlist.dims));
        }
        if w.len() == len {
            let mut ti: usize = 0;
            while ti < pats.len()
                invariant
                    wordlist.wf(),
                    words == wordlist.view_seq(),
                    wi < words.len(),
                    words[wi as int] == w@,
                    w@.len() == len,
                    all_letters(w@),
                    len <= MAX_SIDE,
                    ti <= pats@.len(),
                    pats@.len() == pv.len(),
                    forall|j: int| 0 <= j < pv.len() ==> (#[trigger] pats@[j])@ == pv[j],
                    forall|j: int| 0 <= j < pv.len() ==> word_wf(#[trigger] pv[j]),
                    res.dim_view(!is_row) == other,
                    holds(res.dim_view(is_row), words, pv, len as nat, wi as int, ti as int, 0),
                decreases pats@.len() - ti,
            {
                let t = &pats[ti];
                proof {
                    assert(t@ == pv[ti as int]);
                }
                if t.is_match(w) {
                    let ps = w.prefixes(t);
                    let mut e: usize = 0;
                    while e < ps.len()
                        invariant
                            wi < words.len(),
                            ti < pv.len(),
                            words[wi as int] == w@,
                            w@.len() == len,
                            all_letters(w@),
                            len <= MAX_SIDE,
                            word_wf(pv[ti as int]),
                            t@ == pv[ti as int],
                            words_match(pv[ti as int], w@),
                            entries_view(ps@) == spec_prefixes(w@, t@),
                            e <= ps@.len(),
                            res.dim_view(!is_row) == other,
                            holds(res.dim_view(is_row), words, pv, len as nat, wi as int, ti as int, e as int),
                        decreases ps@.len() - e,
                    {
                        proof {
                            lemma_holds_add(res.dim_view(is_row), words, pv, len as nat, wi as int, ti as int, e as int);
                            assert(entries_view(ps@)[e as int] == (ps@[e as int].0@, ps@[e as int].1));
                        }
                        res.add(is_row, &ps[e].0, ps[e].1);
                        e = e + 1;
                    }
                    proof {
                        assert forall|p: Seq<EncodedChar>, c: u8| seen(words, pv, len as nat, wi as int, ti as int, e as int, p, c)
                            == seen(words, pv, len as nat, wi as int, ti + 1, 0, p, c) by {
                            lemma_seen_next_pattern(words, pv, len as nat, wi as int, ti as int, p, c);
                        }
                        lemma_holds_transfer(res.dim_view(is_row), words, pv, len as nat, (wi as int, ti as int, e as int), (wi as int, ti + 1, 0));
                    }
                } else {
                    proof {
                        assert forall|p: Seq<EncodedChar>, c: u8| seen(words, pv, len as nat, wi as int, ti as int, 0, p, c)
                            == seen(words, pv, len as nat, wi as int, ti + 1, 0, p, c) by {
                            lemma_seen_next_pattern(words, pv, len as nat, wi as int, ti as int, p, c);
                        }
                        lemma_holds_transfer(res.dim_view(is_row), words, pv, len as nat, (wi as int, ti as int, 0), (wi as int, ti + 1, 0));
                    }
                }
                ti = ti + 1;
            }
            proof {
                assert forall|p: Seq<EncodedChar>, c: u8| seen(words, pv, len as nat, wi as int, pv.len() as int, 0, p, c)
                    == seen(words, pv, len as nat, wi + 1, 0, 0, p, c) by {
                    lemma_seen_next_word(words, pv, len as nat, wi as int, p, c);
                }
                lemma_holds_transfer(res.dim_view(is_row), words, pv, len as nat, (wi as int, pv.len() as int, 0), (wi + 1, 0, 0));
            }
        } else {
            proof {
                assert forall|p: Seq<EncodedChar>, c: u8| seen(words, pv, len as nat, wi as int, 0, 0, p, c)
                    == seen(words, pv, len as nat, wi + 1, 0, 0, p, c) by {
                    lemma_seen_next_word(words, pv, len as nat, wi as int, p, c);
                }
                lemma_holds_transfer(res.dim_view(is_row), words, pv, len as nat, (wi as int, 0, 0), (wi + 1, 0, 0));
            }
        }
        wi = wi + 1;
    }
    proof {
        let m = res.dim_view(is_row);
        let nw = words.len() as int;
        assert forall|p: Seq<EncodedChar>, c: u8|
            seen(words, pv, len as nat, nw, 0, 0, p, c) == index_entry(words, pv, len as nat, p, c) by {
        }
        assert forall|key: u128| #[trigger] m.contains_key(key) implies exists|p: Seq<EncodedChar>, c: u8|
            word_wf(p) && p.len() == len && c < CHAR_SET_SIZE && pack(p) == key && index_entry(
                words,
                pv,
                len as nat,
                p,
                c,
            ) by {
            let (p, c) = choose|p: Seq<EncodedChar>, c: u8|
                word_wf(p) && p.len() == len && c < CHAR_SET_SIZE && pack(p) == key && seen(
                    words,
                    pv,
                    len as nat,
                    nw,
                    0,
                    0,
                    p,
                    c,
                );
            assert(index_entry(words, pv, len as nat, p, c));
        }
        assert(len as nat == line_len(template.dims, is_row));
        assert(index_exact(m, words, pv, len as nat));
    }
}

/// Builds the prefix-continuation index for one template: for rows and for
/// columns, every prefix that `prefixes` gives for a word of that length
/// and a line of the template it matches, with the letter it gives.
pub fn make_prefix_map(template: &WordMatrix, wordlist: &WordList) -> (r: WordPrefixMap)
    requires
        template.wf(),
        word_wf(template@),
        wordlist.wf(),
    ensures
        index_exact(
            r.rows_view(),
            wordlist.view_seq(),
            index_patterns(template@, template.dims, true),
            template.dims.width as nat,
        ),
        index_exact(
            r.cols_view(),
            wordlist.view_seq(),
            index_patterns(template@, template.dims, false),
            template.dims.height as nat,
        ),
{
    let mut res = WordPrefixMap::new();
    build_dim(&mut res, true, template, wordlist);
    build_dim(&mut res, false, template, wordlist);
    res
}

/// `i` is the first null position of `p`.
pub open spec fn is_first_null(p: Seq<EncodedChar>, i: int) -> bool {
    &&& 0 <= i < p.len()
    &&& p[i] == null_char()
    &&& forall|j: int| 0 <= j < i ==> #[trigger] p[j] != null_char()
}

/// For every pattern the index stores, letter `c` is in its set exactly
/// when some word of the orientation's length matches the pattern and has
/// `c` at the pattern's first null position.
pub proof fn lemma_index_law(
    m: Map<u128, CharSet>,
    words: Seq<Seq<EncodedChar>>,
    pats: Seq<Seq<EncodedChar>>,
    len: nat,
    p: Seq<EncodedChar>,
    c: u8,
)
    requires
        index_exact(m, words, pats, len),
        forall|k: int| 0 <= k < words.len() ==> all_letters(#[trigger] words[k]),
        word_wf(p),
        p.len() == len,
        len <= MAX_SIDE,
        c < CHAR_SET_SIZE,
        m.contains_key(pack(p) as u128),
    ensures
        lookup(m, p).contains(c) <==> exists|wi: int, i: int|
            0 <= wi < words.len() && words[wi].len() == len && words_match(p, words[wi])
                && is_first_null(p, i) && #[trigger] words[wi][i].0 == c,
{
    lemma_pack_fits(p);
    if lookup(m, p).contains(c) {
        let (wi, ti) = choose|wi: int, ti: int|
            0 <= wi < words.len() && 0 <= ti < pats.len() && #[trigger] hit(words, pats, len, wi, ti, p, c);
        let w = words[wi];
        let t = pats[ti];
        lemma_prefix_entry_form(w, t, 0, (p, EncodedChar(c)));
        let i = choose|i: int|
            0 <= i < w.len() && t[i] == null_char() && (p, EncodedChar(c)) == (mask(w, t, i), w[i]);
        assert forall|j: int| 0 <= j < p.len() implies #[trigger] chars_match(p[j], w[j]) by {}
        assert forall|j: int| 0 <= j < i implies #[trigger] p[j] != null_char() by {
            assert(w[j].is_letter());
        }
        assert(is_first_null(p, i));
    }
    if exists|wi: int, i: int|
        0 <= wi < words.len() && words[wi].len() == len && words_match(p, words[wi])
            && is_first_null(p, i) && #[trigger] words[wi][i].0 == c {
        let (wi, i) = choose|wi: int, i: int|
            0 <= wi < words.len() && words[wi].len() == len && words_match(p, words[wi])
                && is_first_null(p, i) && #[trigger] words[wi][i].0 == c;
        let w = words[wi];
        let key = pack(p) as u128;
        let (p1, c1) = choose|p1: Seq<EncodedChar>, c1: u8|
            word_wf(p1) && p1.len() == len && c1 < CHAR_SET_SIZE && pack(p1) == key && index_entry(
                words,
                pats,
                len,
                p1,
                c1,
            );
        lemma_pack_injective(p1, p);
        let (wi0, ti0) = choose|wi0: int, ti0: int|
            0 <= wi0 < words.len() && 0 <= ti0 < pats.len() && #[trigger] hit(words, pats, len, wi0, ti0, p, c1);
        let w0 = words[wi0];
        let t = pats[ti0];
        lemma_prefix_entry_form(w0, t, 0, (p, EncodedChar(c1)));
        let i0 = choose|i0: int|
            0 <= i0 < w0.len() && t[i0] == null_char() && (p, EncodedChar(c1)) == (mask(w0, t, i0), w0[i0]);
        if i < i0 {
            assert(w0[i].is_letter());
        }
        if i0 < i {
            assert(p[i0] != null_char());
        }
        assert(i == i0);
        assert forall|j: int| 0 <= j < t.len() implies #[trigger] chars_match(t[j], w[j]) by {
            assert(chars_match(t[j], w0[j]));
            assert(chars_match(p[j], w[j]));
            assert(w[j].is_letter() && w0[j].is_letter());
        }
        assert forall|j: int| 0 <= j < p.len() implies mask(w, t, i0)[j] == p[j] by {
            assert(chars_match(t[j], w0[j]));
            assert(chars_match(p[j], w[j]));
            assert(w[j].is_letter() && w0[j].is_letter());
        }
        assert(mask(w, t, i0) =~= p);
        lemma_prefix_entry_form(w, t, 0, (p, EncodedChar(c)));
        assert(w[i0] == EncodedChar(c));
        assert(hit(words, pats, len, wi, ti0, p, c));
    }
}

} // verus!
