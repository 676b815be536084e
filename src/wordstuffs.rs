use vstd::prelude::*;

use crate::echar::{chars_match, null_char, spec_encode, EncodedChar, UnencodeableChar, NULL_CODE};
use crate::matrix::Dims;

verus! {

/// A fixed-length sequence of encoded characters; nulls mark unknown cells.
#[derive(Clone, Debug, PartialEq, Eq, PartialOrd, Ord, Hash)]
pub struct Word(pub Vec<EncodedChar>);

impl View for Word {
    type V = Seq<EncodedChar>;

    open spec fn view(&self) -> Seq<EncodedChar> {
        self.0@
    }
}

/// Equal lengths, and every position matches.
pub open spec fn words_match(a: Seq<EncodedChar>, b: Seq<EncodedChar>) -> bool {
    a.len() == b.len() && forall|i: int| 0 <= i < a.len() ==> #[trigger] chars_match(a[i], b[i])
}

/// `a` with each null position filled from `b`.
pub open spec fn overlay(a: Seq<EncodedChar>, b: Seq<EncodedChar>) -> Seq<EncodedChar> {
    Seq::new(a.len(), |j: int| if a[j] == null_char() { b[j] } else { a[j] })
}

/// No position is null.
pub open spec fn null_free(w: Seq<EncodedChar>) -> bool {
    forall|i: int| 0 <= i < w.len() ==> #[trigger] w[i] != null_char()
}

/// Every position holds a letter.
pub open spec fn all_letters(w: Seq<EncodedChar>) -> bool {
    forall|i: int| 0 <= i < w.len() ==> (#[trigger] w[i]).is_letter()
}

/// Every position holds a letter or null.
pub open spec fn word_wf(w: Seq<EncodedChar>) -> bool {
    forall|i: int| 0 <= i < w.len() ==> (#[trigger] w[i]).wf()
}

/// `w` with every position at or after `i` that is null in `p` set to null.
pub open spec fn mask(w: Seq<EncodedChar>, p: Seq<EncodedChar>, i: int) -> Seq<EncodedChar> {
    Seq::new(
        w.len(),
        |j: int|
            if j >= i && p[j] == null_char() {
                null_char()
            } else {
                w[j]
            },
    )
}

/// The (prefix, extending character) pairs for the null positions of `p`
/// at or after `lo`, from the rightmost one down.
pub open spec fn prefix_entries(w: Seq<EncodedChar>, p: Seq<EncodedChar>, lo: int) -> Seq<
    (Seq<EncodedChar>, EncodedChar),
>
    decreases w.len() - lo,
{
    if lo >= w.len() || lo < 0 {
        Seq::empty()
    } else {
        let rest = prefix_entries(w, p, lo + 1);
        if p[lo] == null_char() {
            rest.push((mask(w, p, lo), w[lo]))
        } else {
            rest
        }
    }
}

/// What `w.prefixes(p)` returns.
pub open spec fn spec_prefixes(w: Seq<EncodedChar>, p: Seq<EncodedChar>) -> Seq<
    (Seq<EncodedChar>, EncodedChar),
> {
    prefix_entries(w, p, 0)
}

/// Number of null positions of `p` at or after `lo`.
pub open spec fn nulls_from(p: Seq<EncodedChar>, lo: int) -> nat
    decreases p.len() - lo,
{
    if lo >= p.len() || lo < 0 {
        0
    } else {
        (if p[lo] == null_char() {
            1nat
        } else {
            0nat
        }) + nulls_from(p, lo + 1)
    }
}

/// Number of null positions of `p`.
pub open spec fn count_nulls(p: Seq<EncodedChar>) -> nat {
    nulls_from(p, 0)
}

pub open spec fn entries_view(v: Seq<(Word, EncodedChar)>) -> Seq<(Seq<EncodedChar>, EncodedChar)> {
    v.map_values(|e: (Word, EncodedChar)| (e.0@, e.1))
}

/// Why a string is not a word.
#[derive(Clone, Copy, Debug, PartialEq, Eq, Structural)]
pub enum WordConversionError {
    WrongLength,
    UnencodeableChar(usize, UnencodeableChar),
    NullChar,
}

/// The character encodes, and to a letter unless nulls are allowed.
pub open spec fn char_ok(c: char, nulls_allowed: bool) -> bool {
    match spec_encode(c) {
        Ok(e) => nulls_allowed || e != null_char(),
        Err(_) => false,
    }
}

/// The error for a character that is not `char_ok`, at position `i`.
pub open spec fn char_error(c: char, i: int) -> WordConversionError {
    match spec_encode(c) {
        Err(e) => WordConversionError::UnencodeableChar(i as usize, e),
        Ok(_) => WordConversionError::NullChar,
    }
}

/// `i` is the first position whose character is not `char_ok`.
pub open spec fn first_bad(chars: Seq<char>, nulls_allowed: bool, i: int) -> bool {
    &&& 0 <= i < chars.len()
    &&& !char_ok(chars[i], nulls_allowed)
    &&& forall|j: int| 0 <= j < i ==> char_ok(#[trigger] chars[j], nulls_allowed)
}

pub open spec fn encode_ok(c: char) -> EncodedChar {
    spec_encode(c)->Ok_0
}

/// What `Word::from_str` gives for a string with characters `chars`.
pub open spec fn spec_word_from_str(chars: Seq<char>, n: nat, nulls_allowed: bool) -> Result<
    Seq<EncodedChar>,
    WordConversionError,
> {
    if chars.len() != n {
        Err(WordConversionError::WrongLength)
    } else if forall|i: int| 0 <= i < n ==> char_ok(#[trigger] chars[i], nulls_allowed) {
        Ok(chars.map_values(|c: char| encode_ok(c)))
    } else {
        let i = choose|i: int| first_bad(chars, nulls_allowed, i);
        Err(char_error(chars[i], i))
    }
}

pub open spec fn word_result_view(r: Result<Word, WordConversionError>) -> Result<
    Seq<EncodedChar>,
    WordConversionError,
> {
    match r {
        Ok(w) => Ok(w@),
        Err(e) => Err(e),
    }
}

impl Word {
    /// A word of `n` nulls.
    pub fn nulls(n: usize) -> (r: Word)
        ensures
            r@ == Seq::new(n as nat, |i: int| null_char()),
    {
        let mut v: Vec<EncodedChar> = Vec::new();
        while v.len() < n
            invariant
                v.len() <= n,
                v@ == Seq::new(v.len() as nat, |i: int| null_char()),
            decreases n - v.len(),
        {
            v.push(EncodedChar::null());
            assert(v@ =~= Seq::new(v.len() as nat, |i: int| null_char()));
        }
        Word(v)
    }

    pub fn len(&self) -> (r: usize)
        ensures
            r == self@.len(),
    {
        self.0.len()
    }

    /// A copy with the same characters.
    pub fn copy(&self) -> (r: Word)
        ensures
            r@ == self@,
    {
        let v = self.0.clone();
        assert(v@ =~= self.0@);
        Word(v)
    }

    /// This word with each null position filled from `under`.
    pub fn overlay(&self, under: &Word) -> (r: Word)
        requires
            under@.len() == self@.len(),
        ensures
            r@ == overlay(self@, under@),
    {
        let mut v: Vec<EncodedChar> = Vec::new();
        for j in 0..self.0.len()
            invariant
                under@.len() == self@.len(),
                v@.len() == j,
                forall|q: int| 0 <= q < j ==> #[trigger] v@[q] == overlay(self@, under@)[q],
        {
            if self.0[j].0 == NULL_CODE {
                v.push(under.0[j]);
            } else {
                v.push(self.0[j]);
            }
        }
        assert(v@ =~= overlay(self@, under@));
        Word(v)
    }

    /// Whether the two words have equal length and match at every position.
    pub fn is_match(&self, other: &Word) -> (r: bool)
        ensures
            r == words_match(self@, other@),
    {
        if self.0.len() != other.0.len() {
            return false;
        }
        let mut i: usize = 0;
        while i < self.0.len()
            invariant
                self@.len() == other@.len(),
                i <= self@.len(),
                forall|j: int| 0 <= j < i ==> #[trigger] chars_match(self@[j], other@[j]),
            decreases self@.len() - i,
        {
            if !self.0[i].is_match(other.0[i]) {
                return false;
            }
            i = i + 1;
        }
        true
    }

    /// For each null position of `pattern`, from the rightmost down: this
    /// word with that position and every null position of `pattern` to its
    /// right set to null, and the character that stood there.
    pub fn prefixes(&self, pattern: &Word) -> (r: Vec<(Word, EncodedChar)>)
        requires
            pattern@.len() == self@.len(),
        ensures
            entries_view(r@) == spec_prefixes(self@, pattern@),
    {
        let n = self.0.len();
        let mut mod_self = self.copy();
        let mut res: Vec<(Word, EncodedChar)> = Vec::new();
        let mut i: usize = n;
        assert(mod_self@ =~= mask(self@, pattern@, n as int));
        assert(entries_view(res@) =~= prefix_entries(self@, pattern@, n as int));
        while i > 0
            invariant
                n == self@.len(),
                pattern@.len() == n,
                i <= n,
                mod_self@ == mask(self@, pattern@, i as int),
                entries_view(res@) == prefix_entries(self@, pattern@, i as int),
            decreases i,
        {
            i = i - 1;
            if pattern.0[i].0 == NULL_CODE {
                let c = mod_self.0[i];
                mod_self.0.set(i, EncodedChar::null());
                assert(mod_self@ =~= mask(self@, pattern@, i as int));
                let ghost before = res@;
                res.push((mod_self.copy(), c));
                assert(entries_view(res@) =~= entries_view(before).push((mod_self@, c)));
            } else {
                assert(mod_self@ =~= mask(self@, pattern@, i as int));
            }
        }
        res
    }

    pub fn as_slice(&self) -> (r: &[EncodedChar])
        ensures
            r@ == self@,
    {
        self.0.as_slice()
    }

    pub fn from_str_with_nulls(s: &str, n: usize) -> (r: Result<Word, WordConversionError>)
        ensures
            word_result_view(r) == spec_word_from_str(s@, n as nat, true),
    {
        Self::from_str(s, n, true)
    }

    pub fn from_str_no_nulls(s: &str, n: usize) -> (r: Result<Word, WordConversionError>)
        ensures
            word_result_view(r) == spec_word_from_str(s@, n as nat, false),
    {
        Self::from_str(s, n, false)
    }

    /// Parses a word of exactly `n` characters, case-folded; `&` is null
    /// and accepted only where `nulls_allowed`.
    pub fn from_str(s: &str, n: usize, nulls_allowed: bool) -> (r: Result<
        Word,
        WordConversionError,
    >)
        ensures
            word_result_view(r) == spec_word_from_str(s@, n as nat, nulls_allowed),
    {
        let len = s.unicode_len();
        if len != n {
            return Err(WordConversionError::WrongLength);
        }
        let mut res: Vec<EncodedChar> = Vec::new();
        let mut i: usize = 0;
        while i < n
            invariant
                n == s@.len(),
                i <= n,
                res@.len() == i,
                forall|j: int| 0 <= j < i ==> char_ok(#[trigger] s@[j], nulls_allowed),
                forall|j: int| 0 <= j < i ==> #[trigger] res@[j] == encode_ok(s@[j]),
            decreases n - i,
        {
            let c = s.get_char(i);
            match EncodedChar::try_from_char(c) {
                Err(e) => {
                    proof {
                        lemma_first_bad_unique(s@, nulls_allowed, i as int);
                    }
                    return Err(WordConversionError::UnencodeableChar(i, e));
                },
                Ok(v) => {
                    if !nulls_allowed && v.0 == NULL_CODE {
                        proof {
                            lemma_first_bad_unique(s@, nulls_allowed, i as int);
                        }
                        return Err(WordConversionError::NullChar);
                    }
                    res.push(v);
                },
            }
            i = i + 1;
        }
        assert(res@ =~= s@.map_values(|c: char| encode_ok(c)));
        Ok(Word(res))
    }
}

proof fn lemma_first_bad_unique(chars: Seq<char>, nulls_allowed: bool, i: int)
    requires
        first_bad(chars, nulls_allowed, i),
    ensures
        (choose|k: int| first_bad(chars, nulls_allowed, k)) == i,
{
    let k = choose|k: int| first_bad(chars, nulls_allowed, k);
    assert(first_bad(chars, nulls_allowed, k));
    if k < i {
        assert(char_ok(chars[k], nulls_allowed));
    } else if k > i {
        assert(char_ok(chars[i], nulls_allowed));
    }
}

/// Lemma for the shape of `prefixes`: the last entry for the null positions
/// at or after `lo` belongs to the leftmost of them.
proof fn lemma_prefix_entries_shape(w: Seq<EncodedChar>, p: Seq<EncodedChar>, lo: int)
    requires
        0 <= lo <= w.len(),
        p.len() == w.len(),
    ensures
        prefix_entries(w, p, lo).len() == nulls_from(p, lo),
        nulls_from(p, lo) > 0 ==> exists|j: int|
            lo <= j < w.len() && p[j] == null_char() && (forall|k: int|
                lo <= k < j ==> p[k] != null_char()) && prefix_entries(w, p, lo).last() == (
            mask(w, p, j), w[j]),
    decreases w.len() - lo,
{
    if lo < w.len() {
        lemma_prefix_entries_shape(w, p, lo + 1);
        if p[lo] == null_char() {
            assert(prefix_entries(w, p, lo).last() == (mask(w, p, lo), w[lo]));
        } else if nulls_from(p, lo) > 0 {
            let j = choose|j: int|
                lo + 1 <= j < w.len() && p[j] == null_char() && (forall|k: int|
                    lo + 1 <= k < j ==> p[k] != null_char()) && prefix_entries(w, p, lo + 1).last()
                    == (mask(w, p, j), w[j]);
            assert(forall|k: int| lo <= k < j ==> p[k] != null_char());
        }
    }
}

/// For a concrete word `w` and a pattern `p` that matches it, `prefixes`
/// gives one pair per null position of `p`, and the last prefix is `p`.
pub proof fn lemma_prefixes_count_and_last(w: Seq<EncodedChar>, p: Seq<EncodedChar>)
    requires
        words_match(p, w),
        null_free(w),
    ensures
        spec_prefixes(w, p).len() == count_nulls(p),
        count_nulls(p) > 0 ==> spec_prefixes(w, p).last().0 == p,
{
    lemma_prefix_entries_shape(w, p, 0);
    if count_nulls(p) > 0 {
        let j = choose|j: int|
            0 <= j < w.len() && p[j] == null_char() && (forall|k: int|
                0 <= k < j ==> p[k] != null_char()) && prefix_entries(w, p, 0).last() == (
            mask(w, p, j), w[j]);
        assert forall|k: int| 0 <= k < p.len() implies mask(w, p, j)[k] == p[k] by {
            assert(chars_match(p[k], w[k]));
        }
        assert(mask(w, p, j) =~= p);
    }
}

/// A word that fits one of the two orientations: `Tall` words are columns
/// (length = height), `Wide` words are rows (length = width).
#[derive(Clone, Debug, PartialEq, Eq, Hash)]
pub enum EitherWord {
    Tall(Word),
    Wide(Word),
}

pub open spec fn either_result_view(r: Result<EitherWord, WordConversionError>) -> Result<
    (bool, Seq<EncodedChar>),
    WordConversionError,
> {
    match r {
        Ok(EitherWord::Tall(w)) => Ok((true, w@)),
        Ok(EitherWord::Wide(w)) => Ok((false, w@)),
        Err(e) => Err(e),
    }
}

/// What `EitherWord::from_str` gives: `(true, w)` for a tall word `w`,
/// `(false, w)` for a wide one. A string that fits both is tall.
pub open spec fn spec_either_from_str(chars: Seq<char>, d: Dims, nulls_allowed: bool) -> Result<
    (bool, Seq<EncodedChar>),
    WordConversionError,
> {
    match spec_word_from_str(chars, d.height as nat, nulls_allowed) {
        Ok(w) => Ok((true, w)),
        Err(WordConversionError::WrongLength) => match spec_word_from_str(
            chars,
            d.width as nat,
            nulls_allowed,
        ) {
            Ok(w) => Ok((false, w)),
            Err(e) => Err(e),
        },
        Err(e) => Err(e),
    }
}

impl EitherWord {
    pub open spec fn spec_word(&self) -> Seq<EncodedChar> {
        match self {
            EitherWord::Tall(w) => w@,
            EitherWord::Wide(w) => w@,
        }
    }

    pub fn from_str_with_nulls(s: &str, d: Dims) -> (r: Result<EitherWord, WordConversionError>)
        ensures
            either_result_view(r) == spec_either_from_str(s@, d, true),
    {
        Self::from_str(s, d, true)
    }

    pub fn from_str_no_nulls(s: &str, d: Dims) -> (r: Result<EitherWord, WordConversionError>)
        ensures
            either_result_view(r) == spec_either_from_str(s@, d, false),
    {
        Self::from_str(s, d, false)
    }

    /// Parses a column word if the length is the height, else a row word if
    /// it is the width.
    pub fn from_str(s: &str, d: Dims, nulls_allowed: bool) -> (r: Result<
        EitherWord,
        WordConversionError,
    >)
        ensures
            either_result_view(r) == spec_either_from_str(s@, d, nulls_allowed),
    {
        match Word::from_str(s, d.height, nulls_allowed) {
            Ok(v) => Ok(EitherWord::Tall(v)),
            Err(WordConversionError::WrongLength) => match Word::from_str(
                s,
                d.width,
                nulls_allowed,
            ) {
                Ok(v) => Ok(EitherWord::Wide(v)),
                Err(e) => Err(e),
            },
            Err(e) => Err(e),
        }
    }

    /// A copy of the word, whichever its orientation.
    pub fn word(&self) -> (r: Word)
        ensures
            r@ == self.spec_word(),
    {
        match self {
            EitherWord::Tall(v) => v.copy(),
            EitherWord::Wide(v) => v.copy(),
        }
    }

    pub fn as_slice(&self) -> (r: &[EncodedChar])
        ensures
            r@ == self.spec_word(),
    {
        match self {
            EitherWord::Tall(v) => v.as_slice(),
            EitherWord::Wide(v) => v.as_slice(),
        }
    }

    /// The word, if it is as long as a column (in a square grid, every
    /// word is).
    pub fn tall(&self, d: Dims) -> (r: Option<Word>)
        ensures
            r is Some <==> self.spec_word().len() == d.height,
            r matches Some(w) ==> w@ == self.spec_word(),
    {
        let w = self.word();
        if w.len() == d.height {
            Some(w)
        } else {
            None
        }
    }

    /// The word, if it is as long as a row (in a square grid, every word
    /// is).
    pub fn wide(&self, d: Dims) -> (r: Option<Word>)
        ensures
            r is Some <==> self.spec_word().len() == d.width,
            r matches Some(w) ==> w@ == self.spec_word(),
    {
        let w = self.word();
        if w.len() == d.width {
            Some(w)
        } else {
            None
        }
    }

    /// Whether the word can stand in a column.
    pub fn is_tall(&self, d: Dims) -> (r: bool)
        ensures
            r == (self.spec_word().len() == d.height),
    {
        self.as_slice().len() == d.height
    }

    /// Whether the word can stand in a row.
    pub fn is_wide(&self, d: Dims) -> (r: bool)
        ensures
            r == (self.spec_word().len() == d.width),
    {
        self.as_slice().len() == d.width
    }
}

} // verus!
