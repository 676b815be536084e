//! The prefix index laid out as a trie in an arena of lines: one line per
//! pattern, holding for each letter the offset to the child pattern's line.

use vstd::prelude::*;

use fnv::FnvHashMap;

use crate::charset::{lemma_empty_has_nothing, lemma_set_bit, CharSet};
use crate::echar::{null_char, EncodedChar, CHAR_SET_SIZE, NULL_CODE};
use crate::matrix::MAX_SIDE;
use crate::prefix_map::{lookup, lookup_in, WordPrefixMap};
use crate::wordstuffs::{count_nulls, nulls_from, Word};

verus! {

/// Distance from a line to a child's line; `OFFSET_MAX` marks a child that
/// is a complete word (it has no line).
pub type Offset = u16;

pub const OFFSET_MAX: u16 = 65535;

/// One node: an offset per letter, 0 for a letter that cannot follow.
pub type Line = [u16; 32];

/// Position of the first null of `w` from `k` on (its length if none).
pub open spec fn first_null_from(w: Seq<EncodedChar>, k: int) -> int
    decreases w.len() - k,
{
    if k >= w.len() || k < 0 {
        w.len() as int
    } else if w[k] == null_char() {
        k
    } else {
        first_null_from(w, k + 1)
    }
}

pub open spec fn first_null(w: Seq<EncodedChar>) -> int {
    first_null_from(w, 0)
}

/// The pattern below `w` for letter `c`.
pub open spec fn child(w: Seq<EncodedChar>, c: u8) -> Seq<EncodedChar> {
    w.update(first_null(w), EncodedChar(c))
}

/// Lines the subtree of pattern `w` takes (none for a complete word).
pub open spec fn tree_lines(map: Map<u128, CharSet>, w: Seq<EncodedChar>, depth: nat) -> nat
    decreases depth, 33int,
{
    if depth == 0 || first_null(w) >= w.len() {
        0
    } else {
        1 + children_lines(map, w, depth, 32)
    }
}

/// Lines the subtrees of the children for letters below `c` take.
pub open spec fn children_lines(map: Map<u128, CharSet>, w: Seq<EncodedChar>, depth: nat, c: int) -> nat
    decreases depth, c,
{
    if depth == 0 || c <= 0 {
        0
    } else {
        children_lines(map, w, depth, c - 1) + if lookup(map, w).contains((c - 1) as u8) {
            tree_lines(map, child(w, (c - 1) as u8), (depth - 1) as nat)
        } else {
            0
        }
    }
}

/// The line at `index` is the node of pattern `w`, and its subtree lies in
/// lines `index..hi`: letter `c` has a nonzero offset iff the index allows
/// it after `w`, and the offset leads to the child's node, or is
/// `OFFSET_MAX` when the child is a complete word.
pub open spec fn node_ok(
    arena: Seq<Line>,
    index: int,
    hi: int,
    map: Map<u128, CharSet>,
    w: Seq<EncodedChar>,
    depth: nat,
) -> bool
    decreases depth,
{
    if depth == 0 {
        false
    } else {
        &&& first_null(w) < w.len()
        &&& 0 <= index < hi <= arena.len()
        &&& forall|c: u8|
            c < CHAR_SET_SIZE ==> ((#[trigger] arena[index]@[c as int]) > 0 <==> lookup(map, w).contains(
                c,
            ))
        &&& forall|c: u8|
            #![trigger lookup(map, w).contains(c)]
            c < CHAR_SET_SIZE && lookup(map, w).contains(c) ==> if first_null(child(w, c)) < w.len() {
                &&& arena[index]@[c as int] < OFFSET_MAX
                &&& node_ok(
                    arena,
                    index + arena[index]@[c as int],
                    hi,
                    map,
                    child(w, c),
                    (depth - 1) as nat,
                )
            } else {
                arena[index]@[c as int] == OFFSET_MAX
            }
    }
}

/// The letters with a nonzero offset in a line.
pub fn line_to_charset(line: Line) -> (r: CharSet)
    ensures
        forall|c: u8| c < CHAR_SET_SIZE ==> (#[trigger] r.contains(c) <==> line@[c as int] > 0),
{
    let mut res = CharSet(0);
    let mut i: u8 = 0;
    assert forall|c: u8| c < CHAR_SET_SIZE implies !#[trigger] res.contains(c) by {
        lemma_empty_has_nothing(c);
    }
    while i < 32
        invariant
            i <= 32,
            forall|c: u8| c < CHAR_SET_SIZE ==> (#[trigger] res.contains(c) <==> (c < i && line@[c as int] > 0)),
        decreases 32 - i,
    {
        if line[i as usize] > 0 {
            res.set(EncodedChar(i));
        }
        i = i + 1;
    }
    res
}

/// Every offset the subtree of `w` needs fits in an `Offset`.
pub open spec fn offsets_fit(map: Map<u128, CharSet>, w: Seq<EncodedChar>, depth: nat) -> bool
    decreases depth,
{
    if depth == 0 || first_null(w) >= w.len() {
        true
    } else {
        forall|c: u8|
            #![trigger lookup(map, w).contains(c)]
            c < CHAR_SET_SIZE && lookup(map, w).contains(c) ==> 1 + children_lines(map, w, depth, c as int)
                < OFFSET_MAX && offsets_fit(map, child(w, c), (depth - 1) as nat)
    }
}

proof fn lemma_first_null_from(w: Seq<EncodedChar>, k: int)
    requires
        0 <= k <= w.len(),
    ensures
        k <= first_null_from(w, k) <= w.len(),
        first_null_from(w, k) < w.len() ==> w[first_null_from(w, k)] == null_char(),
        forall|j: int| k <= j < first_null_from(w, k) ==> #[trigger] w[j] != null_char(),
    decreases w.len() - k,
{
    if k < w.len() && w[k] != null_char() {
        lemma_first_null_from(w, k + 1);
    }
}

/// Setting the first null to a letter moves the first null to the right.
proof fn lemma_child_first_null(w: Seq<EncodedChar>, c: u8)
    requires
        first_null(w) < w.len(),
        c < CHAR_SET_SIZE,
    ensures
        first_null(child(w, c)) > first_null(w),
        child(w, c).len() == w.len(),
{
    lemma_first_null_from(w, 0);
    let ch = child(w, c);
    lemma_first_null_from(ch, 0);
    let f = first_null(w);
    if first_null(ch) <= f {
        let g = first_null(ch);
        assert(ch[g] == null_char());
        if g < f {
            assert(w[g] != null_char());
        }
    }
}

/// A subtree that checks out in one arena checks out in another that
/// agrees on its lines, with any larger bound.
proof fn lemma_node_frame(
    a1: Seq<Line>,
    a2: Seq<Line>,
    index: int,
    hi: int,
    hi2: int,
    map: Map<u128, CharSet>,
    w: Seq<EncodedChar>,
    depth: nat,
)
    requires
        node_ok(a1, index, hi, map, w, depth),
        hi <= hi2 <= a2.len(),
        forall|j: int| index <= j < hi ==> #[trigger] a1[j] == a2[j],
    ensures
        node_ok(a2, index, hi2, map, w, depth),
    decreases depth,
{
    assert(a1[index] == a2[index]);
    assert forall|c: u8|
        #![trigger lookup(map, w).contains(c)]
        c < CHAR_SET_SIZE && lookup(map, w).contains(c) implies if first_null(child(w, c)) < w.len() {
            &&& a2[index]@[c as int] < OFFSET_MAX
            &&& node_ok(a2, index + a2[index]@[c as int], hi2, map, child(w, c), (depth - 1) as nat)
        } else {
            a2[index]@[c as int] == OFFSET_MAX
        } by {
        if first_null(child(w, c)) < w.len() {
            let off = a1[index]@[c as int] as int;
            assert(node_ok(a1, index + off, hi, map, child(w, c), (depth - 1) as nat));
            assert forall|j: int| index + off <= j < hi implies #[trigger] a1[j] == a2[j] by {}
            lemma_node_frame(a1, a2, index + off, hi, hi2, map, child(w, c), (depth - 1) as nat);
        }
    }
}

/// Position of the first null of a pattern.
fn find_first_null(w: &Word) -> (r: usize)
    ensures
        r == first_null(w@),
{
    let n = w.len();
    let mut i: usize = 0;
    while i < n
        invariant
            n == w@.len(),
            i <= n,
            first_null_from(w@, i as int) == first_null(w@),
        decreases n - i,
    {
        if w.0[i].0 == NULL_CODE {
            return i;
        }
        i = i + 1;
    }
    i
}

/// Builds the node of pattern `word` at line `index` (the end of the
/// arena) and, after it, the subtrees of its children, letter by letter.
/// Gives the end of the subtree, or `None` when an offset does not fit.
fn inner_build(
    words: &FnvHashMap<u128, CharSet>,
    arena: &mut Vec<Line>,
    index: usize,
    word: &Word,
    Ghost(depth): Ghost<nat>,
) -> (r: Option<usize>)
    requires
        index == old(arena)@.len(),
        word@.len() <= MAX_SIDE,
        first_null(word@) < word@.len(),
        depth >= word@.len() - first_null(word@),
    ensures
        r is Some <==> offsets_fit(words@, word@, depth),
        r matches Some(e) ==> {
            &&& e == final(arena)@.len()
            &&& e == index + tree_lines(words@, word@, depth)
            &&& final(arena)@.subrange(0, index as int) == old(arena)@
            &&& node_ok(final(arena)@, index as int, e as int, words@, word@, depth)
        },
    decreases depth,
{
    let ghost map = words@;
    let ghost w = word@;
    let ghost start = arena@;
    let first = find_first_null(word);
    proof {
        lemma_first_null_from(w, 0);
    }
    let zero: Line = [0u16; 32];
    arena.push(zero);
    let charset = lookup_in(words, word);
    let mut end: usize = arena.len();
    let mut c: u8 = 0;
    while c < 32
        invariant
            map == words@,
            w == word@,
            first == first_null(w),
            first < w.len(),
            w.len() <= MAX_SIDE,
            depth >= 1,
            depth >= w.len() - first,
            charset == lookup(map, w),
            c <= 32,
            end == arena@.len(),
            end == index + 1 + children_lines(map, w, depth, c as int),
            index < arena@.len(),
            arena@.subrange(0, index as int) == start,
            forall|k: u8| c <= k < CHAR_SET_SIZE ==> #[trigger] arena@[index as int]@[k as int] == 0,
            forall|k: u8|
                k < c ==> (#[trigger] arena@[index as int]@[k as int] > 0 <==> lookup(map, w).contains(k)),
            forall|k: u8|
                #![trigger lookup(map, w).contains(k)]
                k < c && lookup(map, w).contains(k) ==> 1 + children_lines(map, w, depth, k as int)
                    < OFFSET_MAX && offsets_fit(map, child(w, k), (depth - 1) as nat) && if first_null(
                    child(w, k),
                ) < w.len() {
                    &&& arena@[index as int]@[k as int] < OFFSET_MAX
                    &&& node_ok(
                        arena@,
                        index + arena@[index as int]@[k as int],
                        end as int,
                        map,
                        child(w, k),
                        (depth - 1) as nat,
                    )
                } else {
                    arena@[index as int]@[k as int] == OFFSET_MAX
                },
        decreases 32 - c,
    {
        let e = EncodedChar(c);
        let ghost ch = child(w, c);
        let ghost a0 = arena@;
        let ghost e0 = end;
        if charset.has(e) {
            let offset = end - index;
            if offset >= 65535 {
                proof {
                    assert(lookup(map, w).contains(c));
                    assert(!offsets_fit(map, w, depth));
                }
                return None;
            }
            let mut new_word = word.copy();
            new_word.0.set(first, e);
            proof {
                assert(new_word@ =~= ch);
                lemma_child_first_null(w, c);
            }
            let mut line = arena[index];
            line[c as usize] = offset as u16;
            arena.set(index, line);
            let ghost a1 = arena@;
            if find_first_null(&new_word) < new_word.len() {
                match inner_build(words, arena, end, &new_word, Ghost((depth - 1) as nat)) {
                    Some(new_end) => {
                        proof {
                            let a2 = arena@;
                            assert forall|j: int| 0 <= j < e0 implies #[trigger] a2[j] == a1[j] by {
                                assert(a2.subrange(0, e0 as int)[j] == a2[j]);
                            }
                            assert forall|k: u8|
                                #![trigger lookup(map, w).contains(k)]
                                k < c && lookup(map, w).contains(k) && first_null(child(w, k)) < w.len()
                                implies node_ok(
                                    a2,
                                    index + a2[index as int]@[k as int],
                                    new_end as int,
                                    map,
                                    child(w, k),
                                    (depth - 1) as nat,
                                ) by {
                                let ci = index + a1[index as int]@[k as int];
                                assert(a1[index as int]@[k as int] == a0[index as int]@[k as int]);
                                assert forall|j: int| ci <= j < e0 implies #[trigger] a0[j] == a2[j] by {
                                    if j != index {
                                        assert(a1[j] == a0[j]);
                                    }
                                }
                                lemma_node_frame(a0, a2, ci, e0 as int, new_end as int, map, child(w, k), (depth - 1) as nat);
                            }
                            assert(a2.subrange(0, index as int) =~= start) by {
                                assert forall|j: int| 0 <= j < index implies a2[j] == start[j] by {
                                    assert(a0.subrange(0, index as int)[j] == a0[j]);
                                }
                            }
                        }
                        end = new_end;
                    },
                    None => {
                        proof {
                            assert(lookup(map, w).contains(c));
                        }
                        return None;
                    },
                }
            } else {
                let mut line2 = arena[index];
                line2[c as usize] = OFFSET_MAX;
                arena.set(index, line2);
                proof {
                    assert(tree_lines(map, ch, (depth - 1) as nat) == 0);
                    assert forall|k: u8|
                        #![trigger lookup(map, w).contains(k)]
                        k < c && lookup(map, w).contains(k) && first_null(child(w, k)) < w.len()
                        implies node_ok(
                            arena@,
                            index + arena@[index as int]@[k as int],
                            end as int,
                            map,
                            child(w, k),
                            (depth - 1) as nat,
                        ) by {
                        let ci = index + a0[index as int]@[k as int];
                        assert forall|j: int| ci <= j < e0 implies #[trigger] a0[j] == arena@[j] by {}
                        lemma_node_frame(a0, arena@, ci, e0 as int, e0 as int, map, child(w, k), (depth - 1) as nat);
                    }
                    assert(arena@.subrange(0, index as int) =~= start) by {
                        assert forall|j: int| 0 <= j < index implies arena@[j] == start[j] by {
                            assert(a0.subrange(0, index as int)[j] == a0[j]);
                        }
                    }
                }
            }
        }
        c = c + 1;
    }
    proof {
        assert(offsets_fit(map, w, depth));
        assert(node_ok(arena@, index as int, end as int, map, w, depth));
    }
    Some(end)
}

/// One orientation's prefix index as a trie in an arena: the first line is
/// the node of the all-null pattern.
pub struct SingleDimSerialPrefixMap {
    pub arena: Vec<Line>,
}

impl SingleDimSerialPrefixMap {
    /// The arena holds the trie of `map` for patterns of length `n`.
    pub open spec fn represents(&self, map: Map<u128, CharSet>, n: nat) -> bool {
        node_ok(self.arena@, 0, self.arena@.len() as int, map, Seq::new(n, |i: int| null_char()), n)
    }

    /// Lays out the trie of `words` for patterns of `n` characters, or
    /// `None` when an offset would not fit in an `Offset`.
    pub fn build(words: &FnvHashMap<u128, CharSet>, n: usize) -> (r: Option<SingleDimSerialPrefixMap>)
        requires
            1 <= n <= MAX_SIDE,
        ensures
            r is Some <==> offsets_fit(words@, Seq::new(n as nat, |i: int| null_char()), n as nat),
            r matches Some(s) ==> s.represents(words@, n as nat),
    {
        let mut arena: Vec<Line> = Vec::new();
        let top = Word::nulls(n);
        proof {
            assert(top@[0] == null_char());
            assert(first_null(top@) == 0);
        }
        match inner_build(words, &mut arena, 0, &top, Ghost(n as nat)) {
            Some(_) => Some(SingleDimSerialPrefixMap { arena }),
            None => None,
        }
    }

    /// A cursor at the node of the all-null pattern.
    pub fn top(&self) -> (r: Evil<'_>)
        ensures
            r.index == 0,
            r.arena@ == self.arena@,
    {
        Evil { arena: &self.arena, index: 0 }
    }
}

/// A cursor on a node of a trie arena.
#[derive(Clone, Copy)]
pub struct Evil<'a> {
    pub arena: &'a Vec<Line>,
    pub index: usize,
}

impl<'a> Evil<'a> {
    /// The child node for letter `i`; the letter must lead to a node.
    pub fn get_unchecked(self, i: EncodedChar) -> (r: Evil<'a>)
        requires
            i.0 < CHAR_SET_SIZE,
            self.index < self.arena@.len(),
            0 < self.arena@[self.index as int]@[i.0 as int] < OFFSET_MAX,
            self.index + self.arena@[self.index as int]@[i.0 as int] < self.arena@.len(),
        ensures
            r.arena == self.arena,
            r.index == self.index + self.arena@[self.index as int]@[i.0 as int],
    {
        let line = self.arena[self.index];
        let offset = line[i.0 as usize];
        assert(offset == self.arena@[self.index as int]@[i.0 as int]);
        let len = self.arena.len();
        assert(self.index + offset < len);
        Evil { arena: self.arena, index: self.index + offset as usize }
    }

    /// The node's line.
    pub fn line(self) -> (r: Line)
        requires
            self.index < self.arena@.len(),
        ensures
            r == self.arena@[self.index as int],
    {
        self.arena[self.index]
    }

    /// The letters that may follow the node's pattern.
    pub fn charset(self) -> (r: CharSet)
        requires
            self.index < self.arena@.len(),
        ensures
            forall|c: u8|
                c < CHAR_SET_SIZE ==> (#[trigger] r.contains(c) <==> self.arena@[self.index as int]@[c as int]
                    > 0),
    {
        line_to_charset(self.line())
    }
}

/// At a node that checks out, the cursor's letters are the index's, and a
/// letter whose child is not a complete word leads to the child's node.
pub proof fn lemma_cursor_follows_index(
    arena: Seq<Line>,
    index: int,
    map: Map<u128, CharSet>,
    w: Seq<EncodedChar>,
    depth: nat,
    c: u8,
)
    requires
        node_ok(arena, index, arena.len() as int, map, w, depth),
        c < CHAR_SET_SIZE,
    ensures
        arena[index]@[c as int] > 0 <==> lookup(map, w).contains(c),
        lookup(map, w).contains(c) && first_null(child(w, c)) < w.len() ==> {
            let off = arena[index]@[c as int] as int;
            &&& 0 < off < OFFSET_MAX
            &&& node_ok(arena, index + off, arena.len() as int, map, child(w, c), (depth - 1) as nat)
            &&& index + off < arena.len()
        },
{
    if lookup(map, w).contains(c) && first_null(child(w, c)) < w.len() {
        let off = arena[index]@[c as int] as int;
        assert(node_ok(arena, index + off, arena.len() as int, map, child(w, c), (depth - 1) as nat));
        assert(depth - 1 != 0);
    }
}

/// The trie layout of the prefix index, one arena per orientation.
pub struct SerialPrefixMaps {
    pub inner_rows: SingleDimSerialPrefixMap,
    pub inner_cols: SingleDimSerialPrefixMap,
}

impl SerialPrefixMaps {
    /// Lays out both orientations of `map` for rectangles of the given
    /// width and height, or `None` when an offset would not fit.
    pub fn new(map: &WordPrefixMap, width: usize, height: usize) -> (r: Option<SerialPrefixMaps>)
        requires
            1 <= width <= MAX_SIDE,
            1 <= height <= MAX_SIDE,
        ensures
            r is Some <==> offsets_fit(map.rows_view(), Seq::new(width as nat, |i: int| null_char()), width as nat)
                && offsets_fit(map.cols_view(), Seq::new(height as nat, |i: int| null_char()), height as nat),
            r matches Some(s) ==> s.inner_rows.represents(map.rows_view(), width as nat)
                && s.inner_cols.represents(map.cols_view(), height as nat),
    {
        let rows = SingleDimSerialPrefixMap::build(map.rows(), width);
        let cols = SingleDimSerialPrefixMap::build(map.cols(), height);
        match (rows, cols) {
            (Some(inner_rows), Some(inner_cols)) => Some(SerialPrefixMaps { inner_rows, inner_cols }),
            _ => None,
        }
    }

    pub fn rows(&self) -> (r: &SingleDimSerialPrefixMap)
        ensures
            r == &self.inner_rows,
    {
        &self.inner_rows
    }

    pub fn cols(&self) -> (r: &SingleDimSerialPrefixMap)
        ensures
            r == &self.inner_cols,
    {
        &self.inner_cols
    }
}

} // verus!
