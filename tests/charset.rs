use fwrf::charset::CharSet;
use fwrf::echar::{EncodedChar, CHAR_SET_SIZE};

#[test]
fn default_charset_has_nothing() {
    let cs = CharSet::default();
    for c in 0..CHAR_SET_SIZE as u8 {
        assert!(!cs.has(EncodedChar(c)));
    }
}

#[test]
fn set_and_has() {
    let mut cs = CharSet::default();
    cs.set(EncodedChar(3));
    cs.set(EncodedChar(31));
    assert_eq!(cs, CharSet((1 << 3) | (1 << 31)));
    assert!(cs.has(EncodedChar(3)) && cs.has(EncodedChar(31)));
    assert!(!cs.has(EncodedChar(4)));
}

#[test]
fn and_commutes_and_associates() {
    let a = CharSet(0b1011_0110);
    let b = CharSet(0b0110_1100);
    let c = CharSet(0b1111_0000);
    assert_eq!(a.and(b), b.and(a));
    assert_eq!(a.and(b).and(c), a.and(b.and(c)));
    assert_eq!(a.and(b), CharSet(0b0010_0100));
}
