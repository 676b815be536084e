use fwrf::echar::{EncodedChar, UnencodeableChar, NULL_CODE};

#[test]
fn encoding_round_trips() {
    for c in "abcdefghijklmnopqrstuvwxyz.-,\u{e9}'/".chars() {
        let e = EncodedChar::try_from_char(c).unwrap();
        assert!(e.inner() < 32);
        assert_eq!(e.to_char(), c);
    }
    assert_eq!(EncodedChar::try_from_char('Q').unwrap(), EncodedChar(16));
    assert_eq!(EncodedChar::try_from_char('&').unwrap(), EncodedChar(NULL_CODE));
    assert_eq!(EncodedChar::try_from_char('!'), Err(UnencodeableChar('!')));
    assert_eq!(EncodedChar::null().to_char(), '&');
}

#[test]
fn inc_steps_through_alphabet() {
    assert_eq!(EncodedChar::null().inc(), Some(EncodedChar(0)));
    assert_eq!(EncodedChar(0).inc(), Some(EncodedChar(1)));
    assert_eq!(EncodedChar(31).inc(), None);
    assert_eq!(EncodedChar::default(), EncodedChar::null());
}

#[test]
fn chars_match_rule() {
    let a = EncodedChar(1);
    assert!(a.is_match(a));
    assert!(a.is_match(EncodedChar::null()));
    assert!(EncodedChar::null().is_match(a));
    assert!(!a.is_match(EncodedChar(2)));
}
