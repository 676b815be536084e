use vstd::prelude::*;

use fnv::FnvHashSet;

use crate::echar::{EncodedChar, CHAR_SET_SIZE};
use crate::matrix::{Dims, MAX_SIDE};
use crate::prefix_map::{
    key_set_contains, key_set_insert, lemma_pack_fits, lemma_pack_injective, pack, pattern_key,
};
use crate::wordstuffs::{all_letters, word_wf, Word};

verus! {

/// The words a rectangle may use: each a sequence of letters as long as a
/// row or a column, held once.
pub struct WordList {
    pub dims: Dims,
    pub words: Vec<Word>,
    pub keys: FnvHashSet<u128>,
}

/// A word that can stand in a row or a column: letters only, as long as
/// one of the two sides.
pub open spec fn fits(w: Seq<EncodedChar>, d: Dims) -> bool {
    all_letters(w) && (w.len() == d.width || w.len() == d.height)
}

impl WordList {
    pub open spec fn wf(&self) -> bool {
        &&& self.dims.wf()
        &&& forall|i: int| 0 <= i < self.words@.len() ==> fits(#[trigger] self.words@[i]@, self.dims)
        &&& forall|k: u128|
            #[trigger] self.keys@.contains(k) <==> exists|i: int|
                0 <= i < self.words@.len() && pack(#[trigger] self.words@[i]@) == k
    }

    /// The words, as sequences.
    pub open spec fn view_seq(&self) -> Seq<Seq<EncodedChar>> {
        self.words@.map_values(|w: Word| w@)
    }

    /// Whether the list holds `s`.
    pub open spec fn has(&self, s: Seq<EncodedChar>) -> bool {
        exists|i: int| 0 <= i < self.words@.len() && #[trigger] self.words@[i]@ == s
    }

    /// An empty list for rectangles of the given dimensions.
    pub fn new(dims: Dims) -> (r: WordList)
        requires
            dims.wf(),
        ensures
            r.wf(),
            r.dims == dims,
            r.words@.len() == 0,
    {
        WordList { dims, words: Vec::new(), keys: FnvHashSet::default() }
    }

    pub fn len(&self) -> (r: usize)
        ensures
            r == self.words@.len(),
    {
        self.words.len()
    }

    pub fn is_empty(&self) -> (r: bool)
        ensures
            r == (self.words@.len() == 0),
    {
        self.words.len() == 0
    }

    /// Whether the list holds `w`.
    pub fn contains(&self, w: &Word) -> (r: bool)
        requires
            self.wf(),
            word_wf(w@),
            w@.len() <= MAX_SIDE,
        ensures
            r == self.has(w@),
    {
        let k = pattern_key(w);
        proof {
            lemma_pack_fits(w@);
        }
        let r = key_set_contains(&self.keys, k);
        proof {
            if r {
                let i = choose|i: int| 0 <= i < self.words@.len() && pack(self.words@[i]@) == k;
                assert(fits(self.words@[i]@, self.dims));
                lemma_pack_injective(self.words@[i]@, w@);
            }
            if self.has(w@) {
                let i = choose|i: int| 0 <= i < self.words@.len() && self.words@[i]@ == w@;
                assert(self.keys@.contains(k));
            }
        }
        r
    }

    /// Adds `w` if it fits a row or a column and is not held yet; says
    /// whether it was added.
    pub fn insert(&mut self, w: &Word) -> (r: bool)
        requires
            old(self).wf(),
        ensures
            final(self).wf(),
            final(self).dims == old(self).dims,
            r == (fits(w@, old(self).dims) && !old(self).has(w@)),
            forall|s: Seq<EncodedChar>|
                #[trigger] final(self).has(s) == (old(self).has(s) || (fits(w@, old(self).dims) && s
                    == w@)),
    {
        if !is_fitting(w, self.dims) {
            return false;
        }
        proof {
            assert(word_wf(w@)) by {
                assert forall|i: int| 0 <= i < w@.len() implies (#[trigger] w@[i]).wf() by {
                    assert(w@[i].is_letter());
                }
            }
        }
        if self.contains(w) {
            return false;
        }
        let k = pattern_key(w);
        proof {
            lemma_pack_fits(w@);
        }
        let ghost old_words = self.words@;
        key_set_insert(&mut self.keys, k);
        self.words.push(w.copy());
        proof {
            let n = old_words.len() as int;
            assert(self.words@[n]@ == w@);
            assert forall|kk: u128| #[trigger] self.keys@.contains(kk) <==> exists|i: int|
                0 <= i < self.words@.len() && pack(#[trigger] self.words@[i]@) == kk by {
                if kk == k {
                    assert(pack(self.words@[n]@) == kk);
                } else if self.keys@.contains(kk) {
                    let i = choose|i: int| 0 <= i < old_words.len() && pack(old_words[i]@) == kk;
                    assert(self.words@[i] == old_words[i]);
                } else {
                    assert forall|i: int| 0 <= i < self.words@.len() implies pack(
                        #[trigger] self.words@[i]@,
                    ) != kk by {
                        if i < n {
                            assert(self.words@[i] == old_words[i]);
                        }
                    }
                }
            }
            assert forall|s: Seq<EncodedChar>| #[trigger] self.has(s) == (old(self).has(s) || s
                == w@) by {
                if old(self).has(s) {
                    let i = choose|i: int| 0 <= i < old_words.len() && old_words[i]@ == s;
                    assert(self.words@[i] == old_words[i]);
                }
                if self.has(s) && s != w@ {
                    let i = choose|i: int| 0 <= i < self.words@.len() && self.words@[i]@ == s;
                    assert(i < n);
                    assert(self.words@[i] == old_words[i]);
                }
                if s == w@ {
                    assert(self.words@[n]@ == s);
                }
            }
        }
        true
    }
}

/// Whether `w` holds letters only and is as long as a row or a column.
pub fn is_fitting(w: &Word, d: Dims) -> (r: bool)
    ensures
        r == fits(w@, d),
{
    let n = w.len();
    if n != d.width && n != d.height {
        return false;
    }
    let mut i: usize = 0;
    while i < n
        invariant
            n == w@.len(),
            i <= n,
            forall|j: int| 0 <= j < i ==> (#[trigger] w@[j]).is_letter(),
        decreases n - i,
    {
        if (w.0[i].0 as usize) >= CHAR_SET_SIZE {
            return false;
        }
        i = i + 1;
    }
    true
}

/// Whether every letter of `w` is the same (a word such as "aaaaa").
pub fn all_same(w: &Word) -> (r: bool)
    ensures
        r == (forall|i: int| 0 <= i < w@.len() ==> #[trigger] w@[i] == w@[0]),
{
    let n = w.len();
    let mut i: usize = 1;
    while i < n
        invariant
            n == w@.len(),
            1 <= i,
            i <= n || n == 0,
            forall|j: int| 0 <= j < i && j < n ==> #[trigger] w@[j] == w@[0],
        decreases n - i,
    {
        if w.0[i] != w.0[0] {
            return false;
        }
        i = i + 1;
    }
    true
}

} // verus!
