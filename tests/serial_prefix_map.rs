use fwrf::echar::EncodedChar;
use fwrf::matrix::{Dims, WordMatrix};
use fwrf::prefix_map::make_prefix_map;
use fwrf::serial_prefix_map::{line_to_charset, SerialPrefixMaps, SingleDimSerialPrefixMap, OFFSET_MAX};
use fwrf::wordlist::WordList;
use fwrf::wordstuffs::Word;

fn ch(c: char) -> EncodedChar {
    EncodedChar::try_from_char(c).unwrap()
}

#[test]
fn trie_follows_the_index() {
    let d = Dims::new(3, 2).unwrap();
    let mut wl = WordList::new(d);
    for w in ["tea", "ten", "toe", "to", "ea", "an"] {
        wl.insert(&Word::from_str_no_nulls(w, w.len()).unwrap());
    }
    let pm = make_prefix_map(&WordMatrix::nulls(d), &wl);
    let maps = SerialPrefixMaps::new(&pm, 3, 2).unwrap();
    let rows = maps.rows();
    let top = rows.top();
    let first = top.charset();
    assert!(first.has(ch('t')));
    assert!(!first.has(ch('e')));
    let t = top.get_unchecked(ch('t'));
    let second = t.charset();
    assert!(second.has(ch('e')) && second.has(ch('o')));
    assert!(!second.has(ch('a')));
    let te = t.get_unchecked(ch('e'));
    let third = te.charset();
    assert!(third.has(ch('a')) && third.has(ch('n')));
    // complete words have no line of their own
    assert_eq!(te.line()[ch('a').inner()], OFFSET_MAX);
    assert_eq!(rows.arena.len(), 1 + 1 + 2);
    let cols = maps.cols();
    assert!(cols.top().charset().has(ch('e')));
    assert!(cols.top().charset().has(ch('a')));
    assert!(cols.top().charset().has(ch('t')));
}

#[test]
fn empty_index_gives_single_empty_node() {
    let d = Dims::new(2, 2).unwrap();
    let wl = WordList::new(d);
    let pm = make_prefix_map(&WordMatrix::nulls(d), &wl);
    let s = SingleDimSerialPrefixMap::build(pm.rows(), 2).unwrap();
    assert_eq!(s.arena.len(), 1);
    assert_eq!(s.top().charset().0, 0);
}

#[test]
fn line_to_charset_marks_nonzero_slots() {
    let mut line = [0u16; 32];
    line[2] = 5;
    line[31] = OFFSET_MAX;
    let cs = line_to_charset(line);
    assert_eq!(cs.0, (1 << 2) | (1u32 << 31));
}
