use fwrf::echar::{EncodedChar, UnencodeableChar};
use fwrf::matrix::Dims;
use fwrf::wordstuffs::{EitherWord, Word, WordConversionError};

fn ch(c: char) -> EncodedChar {
    EncodedChar::try_from_char(c).unwrap()
}

#[test]
fn prefixes_work() {
    let pattern: Word = Word::from_str_with_nulls("&&a&", 4).unwrap();
    let word: Word = Word::from_str_with_nulls("star", 4).unwrap();
    let mut test_prefixes = word.prefixes(&pattern);
    let mut expected_prefixes: Vec<(Word, EncodedChar)> = vec![("sta&", 'r'), ("s&a&", 't'), ("&&a&", 's')]
        .into_iter()
        .map(|(w, c)| (Word::from_str_with_nulls(w, 4).unwrap(), ch(c)))
        .collect();
    test_prefixes.sort();
    expected_prefixes.sort();
    assert_eq!(test_prefixes, expected_prefixes);
}

#[test]
fn prefixes_work_degenerate() {
    let pattern: Word = Word::from_str_with_nulls("&&&&", 4).unwrap();
    let word: Word = Word::from_str_with_nulls("star", 4).unwrap();
    let mut test_prefixes = word.prefixes(&pattern);
    let mut expected_prefixes: Vec<(Word, EncodedChar)> =
        vec![("sta&", 'r'), ("st&&", 'a'), ("s&&&", 't'), ("&&&&", 's')]
            .into_iter()
            .map(|(w, c)| (Word::from_str_with_nulls(w, 4).unwrap(), ch(c)))
            .collect();
    test_prefixes.sort();
    expected_prefixes.sort();
    assert_eq!(test_prefixes, expected_prefixes);
}

#[test]
fn not_match() {
    let a: Word = Word::from_str_with_nulls("&cb&&", 5).unwrap();
    let b: Word = Word::from_str_with_nulls("items", 5).unwrap();
    assert!(!a.is_match(&b));
}

#[test]
fn prefixes_count_and_last_is_pattern() {
    let pattern = Word::from_str_with_nulls("t&&c&", 5).unwrap();
    let word = Word::from_str_no_nulls("trick", 5).unwrap();
    assert!(pattern.is_match(&word));
    let p = word.prefixes(&pattern);
    assert_eq!(p.len(), 3);
    assert_eq!(p.last().unwrap().0, pattern);
    // emitted right to left
    assert_eq!(p[0], (Word::from_str_with_nulls("tric&", 5).unwrap(), ch('k')));
    assert_eq!(p[1], (Word::from_str_with_nulls("tr&c&", 5).unwrap(), ch('i')));
}

#[test]
fn prefixes_of_full_pattern_are_empty() {
    let word = Word::from_str_no_nulls("abc", 3).unwrap();
    assert!(word.prefixes(&word).is_empty());
}

#[test]
fn words_match_with_nulls() {
    let a = Word::from_str_with_nulls("&te&", 4).unwrap();
    assert!(a.is_match(&Word::from_str_no_nulls("stem", 4).unwrap()));
    assert!(!a.is_match(&Word::from_str_no_nulls("star", 4).unwrap()));
    assert!(!a.is_match(&Word::from_str_no_nulls("stems", 5).unwrap()));
}

#[test]
fn from_str_errors() {
    assert_eq!(Word::from_str_no_nulls("abc", 4), Err(WordConversionError::WrongLength));
    assert_eq!(
        Word::from_str_no_nulls("ab!d", 4),
        Err(WordConversionError::UnencodeableChar(2, UnencodeableChar('!')))
    );
    assert_eq!(Word::from_str_no_nulls("a&cd", 4), Err(WordConversionError::NullChar));
    // the first bad position decides
    assert_eq!(Word::from_str_no_nulls("&b!d", 4), Err(WordConversionError::NullChar));
    assert!(Word::from_str_with_nulls("a&cd", 4).is_ok());
}

#[test]
fn from_str_folds_case() {
    let a = Word::from_str_no_nulls("StAr", 4).unwrap();
    let b = Word::from_str_no_nulls("star", 4).unwrap();
    assert_eq!(a, b);
    assert_eq!(a.as_slice()[0], ch('s'));
}

#[test]
fn either_word_orientation() {
    let d = Dims::new(6, 4).unwrap();
    let tall = EitherWord::from_str_no_nulls("fwrf", d).unwrap();
    assert!(tall.is_tall(d) && !tall.is_wide(d));
    assert!(tall.wide(d).is_none());
    assert_eq!(tall.tall(d).unwrap(), Word::from_str_no_nulls("fwrf", 4).unwrap());
    let wide = EitherWord::from_str_no_nulls("fresco", d).unwrap();
    assert!(wide.is_wide(d) && !wide.is_tall(d));
    assert_eq!(wide.as_slice().len(), 6);
    assert_eq!(EitherWord::from_str_no_nulls("abcde", d), Err(WordConversionError::WrongLength));
    let sq = Dims::new(5, 5).unwrap();
    let both = EitherWord::from_str_with_nulls("s&t&r", sq).unwrap();
    assert!(both.is_tall(sq) && both.is_wide(sq));
    assert_eq!(both.tall(sq), both.wide(sq));
    assert!(both.wide(sq).is_some());
}
