use fwrf::echar::EncodedChar;
use fwrf::finder::{find_rectangles, frontier, is_valid_rectangle, search_template};
use fwrf::matrix::{Dims, MatrixIndex, WordMatrix};
use fwrf::prefix_map::{make_prefix_map, pattern_key, WordPrefixMap};
use fwrf::search::compute;
use fwrf::templates::make_templates;
use fwrf::wordlist::{all_same, WordList};
use fwrf::wordstuffs::{EitherWord, Word};

fn grid(d: Dims, rows: &[&str]) -> WordMatrix {
    assert_eq!(rows.len(), d.height);
    let mut m = WordMatrix::nulls(d);
    for (r, row) in rows.iter().enumerate() {
        let chars: Vec<char> = row.chars().collect();
        assert_eq!(chars.len(), d.width);
        for (c, ch) in chars.into_iter().enumerate() {
            m.set(MatrixIndex { row: r, col: c }, EncodedChar::try_from_char(ch).unwrap());
        }
    }
    m
}

fn wordlist(d: Dims, words: &[&str]) -> WordList {
    let mut wl = WordList::new(d);
    for s in words {
        let w = EitherWord::from_str_no_nulls(s, d).unwrap();
        wl.insert(&w.word());
    }
    wl
}

fn run(d: Dims, words: &[&str], must_use: &[&str]) -> Vec<WordMatrix> {
    let wl = wordlist(d, words);
    let mu: Vec<EitherWord> = must_use.iter().map(|s| EitherWord::from_str_with_nulls(s, d).unwrap()).collect();
    let mut results = find_rectangles(&wl, &mu);
    results.sort();
    results
}

fn assert_results(width: usize, height: usize, words: &[&str], must_use: &[&str], expected: &[&[&str]]) {
    let d = Dims::new(width, height).unwrap();
    let mut expected_results: Vec<WordMatrix> = expected.iter().map(|rows| grid(d, rows)).collect();
    expected_results.sort();
    assert_eq!(run(d, words, must_use), expected_results);
}

#[test]
fn sator_square() {
    assert_results(
        5,
        5,
        &["sator", "arepo", "opera", "rotas", "tenet"],
        &[],
        &[
            &["sator", "arepo", "tenet", "opera", "rotas"],
            &["rotas", "opera", "tenet", "arepo", "sator"],
        ],
    );
}

#[test]
fn aaaaa() {
    assert_results(5, 5, &["aaaaa"], &[], &[&["aaaaa", "aaaaa", "aaaaa", "aaaaa", "aaaaa"]]);
}

#[test]
fn fwrf() {
    assert_results(
        6,
        4,
        &["fresco", "worker", "raging", "frosty", "fwrf", "roar", "ergo", "skis", "cent", "orgy"],
        &[],
        &[&["fresco", "worker", "raging", "frosty"]],
    );
}

#[test]
fn must_use_fills_1() {
    assert_results(4, 2, &["test", "word"], &["test", "word"], &[]);
}

#[test]
fn must_use_fills_2() {
    assert_results(4, 2, &["test", "word", "tw", "sr", "td"], &["test", "word"], &[]);
}

#[test]
fn must_use_fills_3() {
    assert_results(4, 2, &["test", "word", "tw", "eo", "sr", "td"], &["test", "word"], &[&["test", "word"]]);
}

#[test]
fn aaaaa_filtered_finds_nothing() {
    let d = Dims::new(5, 5).unwrap();
    let w = Word::from_str_no_nulls("aaaaa", 5).unwrap();
    assert!(all_same(&w));
    assert!(!all_same(&Word::from_str_no_nulls("aaaab", 5).unwrap()));
    let wl = WordList::new(d);
    assert!(find_rectangles(&wl, &[]).is_empty());
}

#[test]
fn running_twice_gives_same_results() {
    let d = Dims::new(5, 5).unwrap();
    let words = ["sator", "arepo", "opera", "rotas", "tenet"];
    assert_eq!(run(d, &words, &[]), run(d, &words, &[]));
    let wl = wordlist(d, &words);
    let t = WordMatrix::nulls(d);
    let pm = make_prefix_map(&t, &wl);
    let last = MatrixIndex { row: 4, col: 4 };
    assert_eq!(compute(&pm, &t, last), compute(&pm, &t, last));
}

#[test]
fn results_are_rectangles_of_the_template() {
    let d = Dims::new(4, 2).unwrap();
    let wl = wordlist(d, &["test", "word", "tw", "eo", "sr", "td", "tent", "wood", "eo", "no", "td"]);
    let mu = vec![EitherWord::from_str_with_nulls("t&&t", d).unwrap()];
    let templates = make_templates(&mu, vec![WordMatrix::nulls(d)], d);
    assert_eq!(templates.len(), 2);
    for t in &templates {
        let pm = make_prefix_map(t, &wl);
        for m in search_template(t, &pm, &wl) {
            assert!(is_valid_rectangle(&m, &wl));
            for k in 0..8 {
                assert!(t.cells[k].is_match(m.cells[k]));
            }
        }
    }
    let found = find_rectangles(&wl, &mu);
    assert!(found.contains(&grid(d, &["test", "word"])));
    assert!(found.contains(&grid(d, &["tent", "wood"])));
}

#[test]
fn templates_place_every_fitting_slot() {
    let d = Dims::new(4, 2).unwrap();
    let mu = vec![EitherWord::from_str_with_nulls("ab", d).unwrap()];
    let templates = make_templates(&mu, vec![WordMatrix::nulls(d)], d);
    // a column word goes in each of the four columns
    assert_eq!(templates.len(), 4);
    assert_eq!(templates[0].cells[0], EncodedChar::try_from_char('a').unwrap());
    assert_eq!(templates[0].cells[4], EncodedChar::try_from_char('b').unwrap());
    let clash = vec![
        EitherWord::from_str_with_nulls("test", d).unwrap(),
        EitherWord::from_str_with_nulls("tttt", d).unwrap(),
    ];
    // "tttt" placed first, then "test" must avoid its row
    assert_eq!(make_templates(&clash, vec![WordMatrix::nulls(d)], d).len(), 2);
}

#[test]
fn frontier_after_width_minus_one_nulls() {
    let d = Dims::new(3, 3).unwrap();
    let t = WordMatrix::nulls(d);
    assert_eq!(frontier(&t), MatrixIndex { row: 0, col: 2 });
    let t2 = grid(d, &["abc", "def", "ghi"]);
    assert_eq!(frontier(&t2), MatrixIndex { row: 2, col: 2 });
}

#[test]
fn index_holds_continuations() {
    let d = Dims::new(4, 2).unwrap();
    let wl = wordlist(d, &["test", "tent", "tw"]);
    let t = WordMatrix::nulls(d);
    let pm = make_prefix_map(&t, &wl);
    let p = Word::from_str_with_nulls("te&&", 4).unwrap();
    let cs = pm.get(true, &p);
    assert!(cs.has(EncodedChar::try_from_char('s').unwrap()));
    assert!(cs.has(EncodedChar::try_from_char('n').unwrap()));
    assert!(!cs.has(EncodedChar::try_from_char('e').unwrap()));
    let start = pm.get(true, &Word::nulls(4));
    assert!(start.has(EncodedChar::try_from_char('t').unwrap()));
    let col = pm.get(false, &Word::from_str_with_nulls("t&", 2).unwrap());
    assert!(col.has(EncodedChar::try_from_char('w').unwrap()));
    assert_eq!(pm.get(true, &Word::from_str_with_nulls("x&&&", 4).unwrap()).0, 0);
}

#[test]
fn prefix_map_add_and_get() {
    let mut pm = WordPrefixMap::new();
    let p = Word::from_str_with_nulls("a&", 2).unwrap();
    pm.add(true, &p, EncodedChar(4));
    pm.add(true, &p, EncodedChar(1));
    assert_eq!(pm.get(true, &p).0, (1 << 4) | (1 << 1));
    assert_eq!(pm.get(false, &p).0, 0);
    assert_eq!(pattern_key(&Word::from_str_no_nulls("b", 1).unwrap()), 2);
    assert_eq!(pattern_key(&Word::from_str_with_nulls("a&", 2).unwrap()), 64 + 33);
}

#[test]
fn wordlist_holds_each_word_once() {
    let d = Dims::new(4, 2).unwrap();
    let mut wl = WordList::new(d);
    let w = Word::from_str_no_nulls("test", 4).unwrap();
    assert!(wl.insert(&w));
    assert!(!wl.insert(&w));
    assert!(!wl.insert(&Word::from_str_no_nulls("abc", 3).unwrap()));
    assert!(!wl.insert(&Word::from_str_with_nulls("te&t", 4).unwrap()));
    assert_eq!(wl.len(), 1);
    assert!(wl.contains(&w));
    assert!(!wl.contains(&Word::from_str_no_nulls("tent", 4).unwrap()));
}

#[test]
fn square_index_merges_row_and_column_lines() {
    let d = Dims::new(2, 2).unwrap();
    let mut t = WordMatrix::nulls(d);
    fwrf::dim_col::set_matrix(&mut t, 0, &Word::from_str_no_nulls("ab", 2).unwrap());
    let wl = wordlist(d, &["cd"]);
    let pm = make_prefix_map(&t, &wl);
    let free_col = Word::nulls(2);
    assert!(pm.get(true, &free_col).has(EncodedChar::try_from_char('c').unwrap()));
    assert!(pm.get(false, &free_col).has(EncodedChar::try_from_char('c').unwrap()));
    assert_eq!(pm.get(true, &Word::from_str_with_nulls("c&", 2).unwrap()).0, 1 << 3);
}

#[test]
fn must_use_order_does_not_matter() {
    let d = Dims::new(2, 1).unwrap();
    let ab = EitherWord::from_str_with_nulls("ab", d).unwrap();
    let a_ = EitherWord::from_str_with_nulls("a&", d).unwrap();
    let one = make_templates(&[ab.clone(), a_.clone()], vec![WordMatrix::nulls(d)], d);
    let two = make_templates(&[a_, ab], vec![WordMatrix::nulls(d)], d);
    let expected = vec![grid(d, &["ab"])];
    assert_eq!(one, expected);
    assert_eq!(two, expected);
}
