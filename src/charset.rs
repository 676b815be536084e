use vstd::prelude::*;

use crate::echar::{EncodedChar, CHAR_SET_SIZE};

verus! {

/// A set of letters: bit `c` is set when the letter with code `c` belongs.
#[derive(Clone, Copy, PartialEq, Eq, Structural, Debug)]
pub struct CharSet(pub u32);

/// The set holding the one letter `c`.
pub open spec fn singleton(c: u8) -> CharSet {
    CharSet(1u32 << c)
}

impl CharSet {
    /// Whether the letter with code `c` belongs to the set.
    pub open spec fn contains(self, c: u8) -> bool {
        c < CHAR_SET_SIZE && (self.0 >> c) & 1u32 == 1u32
    }

    /// The letters in both sets.
    pub open spec fn spec_and(self, other: CharSet) -> CharSet {
        CharSet(self.0 & other.0)
    }

    /// Adds a letter to the set.
    pub fn set(&mut self, e: EncodedChar)
        requires
            e.0 < CHAR_SET_SIZE,
        ensures
            final(self).0 == old(self).0 | (1u32 << e.0),
            forall|c: u8| #[trigger] final(self).contains(c) == (old(self).contains(c) || c == e.0),
    {
        let old_bits = self.0;
        let k = e.0;
        self.0 = self.0 | (1u32 << k);
        assert forall|c: u8| #[trigger] self.contains(c) == (CharSet(old_bits).contains(c) || c == k) by {
            lemma_set_bit(old_bits, k, c);
        }
    }

    /// Whether the set holds the letter.
    pub fn has(&self, e: EncodedChar) -> (r: bool)
        requires
            e.0 < CHAR_SET_SIZE,
        ensures
            r == self.contains(e.0),
    {
        let k = e.0;
        let bits = self.0;
        assert((bits & (1u32 << k)) > 0 <==> (bits >> k) & 1u32 == 1u32) by (bit_vector)
            requires
                k < 32,
        ;
        (self.0 & (1u32 << e.0)) > 0
    }

    /// The letters in both sets.
    pub fn and(self, other: CharSet) -> (r: CharSet)
        ensures
            r == self.spec_and(other),
            forall|c: u8| #[trigger] r.contains(c) == (self.contains(c) && other.contains(c)),
    {
        let r = CharSet(self.0 & other.0);
        assert forall|c: u8| #[trigger] r.contains(c) == (self.contains(c) && other.contains(c)) by {
            lemma_and_bit(self.0, other.0, c);
        }
        r
    }
}

impl Default for CharSet {
    fn default() -> (r: Self)
        ensures
            r == CharSet(0),
    {
        CharSet(0)
    }
}

pub proof fn lemma_set_bit(bits: u32, k: u8, c: u8)
    requires
        k < 32,
    ensures
        CharSet(bits | (1u32 << k)).contains(c) == (CharSet(bits).contains(c) || c == k),
{
    if c < 32 {
        assert(((bits | (1u32 << k)) >> c) & 1u32 == 1u32 <==> ((bits >> c) & 1u32 == 1u32 || c == k))
            by (bit_vector)
            requires
                k < 32,
                c < 32,
        ;
    }
}

pub proof fn lemma_and_bit(a: u32, b: u32, c: u8)
    ensures
        CharSet(a & b).contains(c) == (CharSet(a).contains(c) && CharSet(b).contains(c)),
{
    if c < 32 {
        assert(((a & b) >> c) & 1u32 == 1u32 <==> ((a >> c) & 1u32 == 1u32 && (b >> c) & 1u32
            == 1u32)) by (bit_vector)
            requires
                c < 32,
        ;
    }
}

/// The singleton set holds its letter and nothing else.
pub proof fn lemma_singleton(c: u8, d: u8)
    requires
        c < CHAR_SET_SIZE,
    ensures
        singleton(c).contains(d) == (d == c),
{
    lemma_set_bit(0, c, d);
    assert(0u32 | (1u32 << c) == 1u32 << c) by (bit_vector);
    assert(!CharSet(0).contains(d)) by {
        lemma_empty_has_nothing(d);
    }
}

/// `and` does not depend on the order of its operands.
pub proof fn lemma_and_commutative(a: CharSet, b: CharSet)
    ensures
        a.spec_and(b) == b.spec_and(a),
{
    let (x, y) = (a.0, b.0);
    assert(x & y == y & x) by (bit_vector);
}

/// `and` does not depend on how a chain of it is grouped.
pub proof fn lemma_and_associative(a: CharSet, b: CharSet, c: CharSet)
    ensures
        a.spec_and(b).spec_and(c) == a.spec_and(b.spec_and(c)),
{
    let (x, y, z) = (a.0, b.0, c.0);
    assert((x & y) & z == x & (y & z)) by (bit_vector);
}

/// The default (empty) set holds no letter.
pub proof fn lemma_empty_has_nothing(c: u8)
    ensures
        !CharSet(0).contains(c),
{
    if c < 32 {
        assert((0u32 >> c) & 1u32 == 0u32) by (bit_vector)
            requires
                c < 32,
        ;
    }
}

} // verus!
