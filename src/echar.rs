use vstd::prelude::*;

verus! {

/// Number of letters in the alphabet; a `CharSet` holds one bit per letter.
pub const CHAR_SET_SIZE: usize = 32;

/// Raw value of the null character, which marks an unset cell or a wildcard.
pub const NULL_CODE: u8 = 255;

/// The null character.
pub open spec fn null_char() -> EncodedChar {
    EncodedChar(NULL_CODE)
}

/// A letter of the alphabet, stored as its code `0..CHAR_SET_SIZE`, or the
/// null character.
#[derive(Clone, Copy, PartialEq, Eq, Structural, PartialOrd, Ord, Hash, Debug)]
pub struct EncodedChar(pub u8);

/// A character outside the alphabet (after ASCII lower-casing).
#[derive(Clone, Copy, PartialEq, Eq, Structural, Debug)]
pub struct UnencodeableChar(pub char);

/// The code of a character: ASCII letters fold to lower case first.
pub open spec fn char_code(c: char) -> Option<u8> {
    match c {
        'a' | 'A' => Some(0u8),
        'b' | 'B' => Some(1u8),
        'c' | 'C' => Some(2u8),
        'd' | 'D' => Some(3u8),
        'e' | 'E' => Some(4u8),
        'f' | 'F' => Some(5u8),
        'g' | 'G' => Some(6u8),
        'h' | 'H' => Some(7u8),
        'i' | 'I' => Some(8u8),
        'j' | 'J' => Some(9u8),
        'k' | 'K' => Some(10u8),
        'l' | 'L' => Some(11u8),
        'm' | 'M' => Some(12u8),
        'n' | 'N' => Some(13u8),
        'o' | 'O' => Some(14u8),
        'p' | 'P' => Some(15u8),
        'q' | 'Q' => Some(16u8),
        'r' | 'R' => Some(17u8),
        's' | 'S' => Some(18u8),
        't' | 'T' => Some(19u8),
        'u' | 'U' => Some(20u8),
        'v' | 'V' => Some(21u8),
        'w' | 'W' => Some(22u8),
        'x' | 'X' => Some(23u8),
        'y' | 'Y' => Some(24u8),
        'z' | 'Z' => Some(25u8),
        '.' => Some(26u8),
        '-' => Some(27u8),
        ',' => Some(28u8),
        '\u{e9}' => Some(29u8),
        '\'' => Some(30u8),
        '/' => Some(31u8),
        _ => None,
    }
}

/// What encoding a character gives: `&` is the null character.
pub open spec fn spec_encode(c: char) -> Result<EncodedChar, UnencodeableChar> {
    if c == '&' {
        Ok(EncodedChar(NULL_CODE))
    } else {
        match char_code(c) {
            Some(code) => Ok(EncodedChar(code)),
            None => Err(UnencodeableChar(c)),
        }
    }
}

/// The character that a code stands for.
pub open spec fn code_char(code: u8) -> char {
    if code == NULL_CODE {
        '&'
    } else {
        match code {
            0 => 'a',
            1 => 'b',
            2 => 'c',
            3 => 'd',
            4 => 'e',
            5 => 'f',
            6 => 'g',
            7 => 'h',
            8 => 'i',
            9 => 'j',
            10 => 'k',
            11 => 'l',
            12 => 'm',
            13 => 'n',
            14 => 'o',
            15 => 'p',
            16 => 'q',
            17 => 'r',
            18 => 's',
            19 => 't',
            20 => 'u',
            21 => 'v',
            22 => 'w',
            23 => 'x',
            24 => 'y',
            25 => 'z',
            26 => '.',
            27 => '-',
            28 => ',',
            29 => '\u{e9}',
            30 => '\'',
            31 => '/',
            _ => '?',
        }
    }
}

/// Two characters match when they are equal or either is null.
pub open spec fn chars_match(a: EncodedChar, b: EncodedChar) -> bool {
    a == null_char() || b == null_char() || a == b
}

/// The character after `e` in the order null, 0, 1, ..., CHAR_SET_SIZE - 1.
pub open spec fn spec_inc(e: EncodedChar) -> Option<EncodedChar> {
    if e == null_char() {
        Some(EncodedChar(0))
    } else if e.0 < CHAR_SET_SIZE - 1 {
        Some(EncodedChar((e.0 + 1) as u8))
    } else {
        None
    }
}

impl EncodedChar {
    /// The null character.
    pub fn null() -> (r: Self)
        ensures
            r == null_char(),
    {
        EncodedChar(NULL_CODE)
    }

    /// A letter of the alphabet or the null character.
    pub open spec fn wf(self) -> bool {
        self.0 < CHAR_SET_SIZE || self.0 == NULL_CODE
    }

    /// A letter of the alphabet.
    pub open spec fn is_letter(self) -> bool {
        self.0 < CHAR_SET_SIZE
    }

    pub fn inner(self) -> (r: usize)
        ensures
            r == self.0,
    {
        self.0 as usize
    }

    /// Two characters match when they are equal or either is null.
    pub fn is_match(self, other: Self) -> (r: bool)
        ensures
            r == chars_match(self, other),
    {
        self.0 == NULL_CODE || other.0 == NULL_CODE || self.0 == other.0
    }

    /// The next character to try in a cell: null steps to the first letter,
    /// the last letter has no successor.
    pub fn inc(self) -> (r: Option<Self>)
        ensures
            r == spec_inc(self),
    {
        if self.0 == NULL_CODE {
            Some(EncodedChar(0))
        } else if (self.0 as usize) < CHAR_SET_SIZE - 1 {
            Some(EncodedChar(self.0 + 1))
        } else {
            None
        }
    }

    /// Encodes a character; `&` gives the null character.
    pub fn try_from_char(c: char) -> (r: Result<Self, UnencodeableChar>)
        ensures
            r == spec_encode(c),
    {
        if c == '&' {
            return Ok(EncodedChar(NULL_CODE));
        }
        let code: Option<u8> = match c {
            'a' | 'A' => Some(0u8),
            'b' | 'B' => Some(1u8),
            'c' | 'C' => Some(2u8),
            'd' | 'D' => Some(3u8),
            'e' | 'E' => Some(4u8),
            'f' | 'F' => Some(5u8),
            'g' | 'G' => Some(6u8),
            'h' | 'H' => Some(7u8),
            'i' | 'I' => Some(8u8),
            'j' | 'J' => Some(9u8),
            'k' | 'K' => Some(10u8),
            'l' | 'L' => Some(11u8),
            'm' | 'M' => Some(12u8),
            'n' | 'N' => Some(13u8),
            'o' | 'O' => Some(14u8),
            'p' | 'P' => Some(15u8),
            'q' | 'Q' => Some(16u8),
            'r' | 'R' => Some(17u8),
            's' | 'S' => Some(18u8),
            't' | 'T' => Some(19u8),
            'u' | 'U' => Some(20u8),
            'v' | 'V' => Some(21u8),
            'w' | 'W' => Some(22u8),
            'x' | 'X' => Some(23u8),
            'y' | 'Y' => Some(24u8),
            'z' | 'Z' => Some(25u8),
            '.' => Some(26u8),
            '-' => Some(27u8),
            ',' => Some(28u8),
            '\u{e9}' => Some(29u8),
            '\'' => Some(30u8),
            '/' => Some(31u8),
            _ => None,
        };
        match code {
            Some(v) => Ok(EncodedChar(v)),
            None => Err(UnencodeableChar(c)),
        }
    }

    /// The character this code stands for: `&` for null, `?` for a value
    /// outside the alphabet.
    pub fn to_char(self) -> (r: char)
        ensures
            r == code_char(self.0),
    {
        if self.0 == NULL_CODE {
            return '&';
        }
        match self.0 {
            0 => 'a',
            1 => 'b',
            2 => 'c',
            3 => 'd',
            4 => 'e',
            5 => 'f',
            6 => 'g',
            7 => 'h',
            8 => 'i',
            9 => 'j',
            10 => 'k',
            11 => 'l',
            12 => 'm',
            13 => 'n',
            14 => 'o',
            15 => 'p',
            16 => 'q',
            17 => 'r',
            18 => 's',
            19 => 't',
            20 => 'u',
            21 => 'v',
            22 => 'w',
            23 => 'x',
            24 => 'y',
            25 => 'z',
            26 => '.',
            27 => '-',
            28 => ',',
            29 => '\u{e9}',
            30 => '\'',
            31 => '/',
            _ => '?',
        }
    }
}

impl Default for EncodedChar {
    fn default() -> (r: Self)
        ensures
            r == null_char(),
    {
        EncodedChar(NULL_CODE)
    }
}

} // verus!
