//! The two 64-character alphabets and the symbol classes the decoder knows.

use vstd::prelude::*;

verus! {

/// Available encoding character sets
#[derive(Clone, Copy, Debug, PartialEq, Eq, Structural)]
pub enum CharacterSet {
    /// The standard character set (uses `+` and `/`)
    Standard,
    /// The URL safe character set (uses `-` and `_`)
    UrlSafe,
}

/// The padding character `=`.
pub const PAD: u8 = 61;

/// Carriage return.
pub const CR: u8 = 13;

/// Line feed.
pub const LF: u8 = 10;

/// The character that stands for the 6-bit value `v` in the character set `cs`.
pub open spec fn symbol(cs: CharacterSet, v: u8) -> u8
    recommends
        v < 64,
{
    if v < 26 {
        (v + 65) as u8
    } else if v < 52 {
        (v + 71) as u8
    } else if v < 62 {
        (v - 4) as u8
    } else if v == 62 {
        match cs {
            CharacterSet::Standard => 43u8,
            CharacterSet::UrlSafe => 45u8,
        }
    } else {
        match cs {
            CharacterSet::Standard => 47u8,
            CharacterSet::UrlSafe => 95u8,
        }
    }
}

/// The 6-bit value of a data character of either alphabet; `None` for every
/// other byte.
pub open spec fn sextet_of(b: u8) -> Option<u8> {
    if 65 <= b <= 90 {
        Some((b - 65) as u8)
    } else if 97 <= b <= 122 {
        Some((b - 71) as u8)
    } else if 48 <= b <= 57 {
        Some((b + 4) as u8)
    } else if b == 43 || b == 45 {
        Some(62u8)
    } else if b == 47 || b == 95 {
        Some(63u8)
    } else {
        None
    }
}

/// Whether `c` is one of the 64 characters of the character set `cs`.
pub open spec fn in_alphabet(cs: CharacterSet, c: u8) -> bool {
    ||| 65 <= c <= 90
    ||| 97 <= c <= 122
    ||| 48 <= c <= 57
    ||| match cs {
        CharacterSet::Standard => c == 43 || c == 47,
        CharacterSet::UrlSafe => c == 45 || c == 95,
    }
}

/// Whether the decoder passes over `b` without effect (CR or LF).
pub open spec fn is_skip(b: u8) -> bool {
    b == CR || b == LF
}

/// Looks up the character for a 6-bit value.
pub fn encode_symbol(cs: CharacterSet, v: u8) -> (c: u8)
    requires
        v < 64,
    ensures
        c == symbol(cs, v),
        sextet_of(c) == Some(v),
{
    if v < 26 {
        v + 65
    } else if v < 52 {
        v + 71
    } else if v < 62 {
        v - 4
    } else if v == 62 {
        match cs {
            CharacterSet::Standard => 43,
            CharacterSet::UrlSafe => 45,
        }
    } else {
        match cs {
            CharacterSet::Standard => 47,
            CharacterSet::UrlSafe => 95,
        }
    }
}

/// Looks up the 6-bit value of a data character.
pub fn decode_symbol(b: u8) -> (r: Option<u8>)
    ensures
        r == sextet_of(b),
        r matches Some(v) ==> v < 64,
{
    if 65 <= b && b <= 90 {
        Some(b - 65)
    } else if 97 <= b && b <= 122 {
        Some(b - 71)
    } else if 48 <= b && b <= 57 {
        Some(b + 4)
    } else if b == 43 || b == 45 {
        Some(62)
    } else if b == 47 || b == 95 {
        Some(63)
    } else {
        None
    }
}

/// Every 6-bit value is read back from its character, in both alphabets, and
/// no character of an alphabet is the padding character or a line break.
pub proof fn lemma_symbol_inverse(cs: CharacterSet, v: u8)
    requires
        v < 64,
    ensures
        sextet_of(symbol(cs, v)) == Some(v),
        in_alphabet(cs, symbol(cs, v)),
        symbol(cs, v) != PAD,
        !is_skip(symbol(cs, v)),
        symbol(cs, v) < 128,
{
}

} // verus!
