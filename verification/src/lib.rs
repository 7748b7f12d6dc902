//! Base64 binary-to-text encoding with configurable alphabet, padding and
//! line wrapping, and a tolerant, validating decoder.

pub mod alphabet;
pub mod config;
pub mod decode;
pub mod encode;
pub mod laws;
pub mod text;

pub use alphabet::CharacterSet;
pub use alphabet::CharacterSet::{Standard, UrlSafe};
pub use config::{Config, Newline, MIME, STANDARD, URL_SAFE};
pub use decode::FromBase64;
pub use decode::FromBase64Error;
pub use decode::FromBase64Error::{InvalidBase64Byte, InvalidBase64Length};
pub use encode::ToBase64;
