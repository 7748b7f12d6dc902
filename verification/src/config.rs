//! Encoding configuration and its presets.

use vstd::prelude::*;
use crate::alphabet::CharacterSet;

verus! {

/// Available newline types
#[derive(Clone, Copy, Debug, PartialEq, Eq, Structural)]
pub enum Newline {
    /// A linefeed (i.e. Unix-style newline)
    LF,
    /// A carriage return and a linefeed (i.e. Windows-style newline)
    CRLF,
}

/// Contains configuration parameters for `to_base64`.
#[derive(Clone, Copy, Debug)]
pub struct Config {
    /// Character set to use
    pub char_set: CharacterSet,
    /// Newline to use
    pub newline: Newline,
    /// True to pad output with `=` characters
    pub pad: bool,
    /// `Some(len)` to wrap lines at `len`, `None` to disable line wrapping
    pub line_length: Option<usize>,
}

impl Config {
    /// A configuration is usable when it does not ask for lines of length 0.
    pub open spec fn well_formed(&self) -> bool {
        self.line_length != Some(0usize)
    }
}

/// Configuration for RFC 4648 standard base64 encoding
#[allow(non_snake_case)]
pub fn STANDARD() -> (c: Config)
    ensures
        c == (Config {
            char_set: CharacterSet::Standard,
            newline: Newline::CRLF,
            pad: true,
            line_length: None,
        }),
{
    Config { char_set: CharacterSet::Standard, newline: Newline::CRLF, pad: true, line_length: None }
}

/// Configuration for RFC 4648 base64url encoding
#[allow(non_snake_case)]
pub fn URL_SAFE() -> (c: Config)
    ensures
        c == (Config {
            char_set: CharacterSet::UrlSafe,
            newline: Newline::CRLF,
            pad: false,
            line_length: None,
        }),
{
    Config { char_set: CharacterSet::UrlSafe, newline: Newline::CRLF, pad: false, line_length: None }
}

/// Configuration for RFC 2045 MIME base64 encoding
#[allow(non_snake_case)]
pub fn MIME() -> (c: Config)
    ensures
        c == (Config {
            char_set: CharacterSet::Standard,
            newline: Newline::CRLF,
            pad: true,
            line_length: Some(76usize),
        }),
{
    Config {
        char_set: CharacterSet::Standard,
        newline: Newline::CRLF,
        pad: true,
        line_length: Some(76),
    }
}

} // verus!
