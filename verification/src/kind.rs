//! The four script categories and the classification of a character.

use vstd::prelude::*;

verus! {

/// The script category of a character.
#[derive(Debug, PartialEq, Eq, Hash, Clone, Copy, Structural)]
pub enum CharKind {
    Hiragana,
    Katakana,
    Kanji,
    Other,
}

/// Whether the code point `cp` lies in one of the CJK ideograph blocks.
///
/// This includes ideographs that are only used in Chinese.
pub open spec fn is_ideograph(cp: int) -> bool {
    ||| 0x4e00 <= cp <= 0x9fff
    ||| 0x3400 <= cp <= 0x4dbf
    ||| 0x2a700 <= cp <= 0x2b73f
    ||| 0x2b740 <= cp <= 0x2b81f
    ||| 0x2b820 <= cp <= 0x2ceaf
    ||| 0x2ceb0 <= cp <= 0x2ebef
    ||| 0xf900 <= cp <= 0xfaff
}

/// The category of the character `c`.
pub open spec fn classify(c: char) -> CharKind {
    let cp = c as int;
    if 0x3041 <= cp <= 0x3096 {
        CharKind::Hiragana
    } else if 0x30a1 <= cp <= 0x30fa {
        CharKind::Katakana
    } else if is_ideograph(cp) {
        CharKind::Kanji
    } else {
        CharKind::Other
    }
}

impl CharKind {
    /// The four kinds, in the order in which reports list them.
    pub const ALL: [CharKind; 4] = [
        CharKind::Hiragana,
        CharKind::Katakana,
        CharKind::Kanji,
        CharKind::Other,
    ];

    /// The name of the kind, as a sequence of characters.
    pub open spec fn name(self) -> Seq<char> {
        match self {
            CharKind::Hiragana => "Hiragana"@,
            CharKind::Katakana => "Katakana"@,
            CharKind::Kanji => "Kanji"@,
            CharKind::Other => "Other"@,
        }
    }

    /// The name of the kind.
    pub fn to_string(&self) -> (name: String)
        ensures
            name@ == self.name(),
    {
        match self {
            CharKind::Hiragana => "Hiragana".to_owned(),
            CharKind::Katakana => "Katakana".to_owned(),
            CharKind::Kanji => "Kanji".to_owned(),
            CharKind::Other => "Other".to_owned(),
        }
    }

    /// Classifies one character.
    pub fn from_char(c: char) -> (kind: CharKind)
        ensures
            kind == classify(c),
    {
        let cp: u32 = c as u32;
        if 0x3041 <= cp && cp <= 0x3096 {
            CharKind::Hiragana
        } else if 0x30a1 <= cp && cp <= 0x30fa {
            CharKind::Katakana
        } else if (0x4e00 <= cp && cp <= 0x9fff) || (0x3400 <= cp && cp <= 0x4dbf) || (0x2a700
            <= cp && cp <= 0x2b73f) || (0x2b740 <= cp && cp <= 0x2b81f) || (0x2b820 <= cp && cp
            <= 0x2ceaf) || (0x2ceb0 <= cp && cp <= 0x2ebef) || (0xf900 <= cp && cp <= 0xfaff) {
            CharKind::Kanji
        } else {
            CharKind::Other
        }
    }
}

} // verus!
