//! The encoder.

use vstd::prelude::*;
use vstd::utf8::encode_utf8;
use crate::alphabet::{encode_symbol, lemma_symbol_inverse, symbol, CharacterSet, CR, LF, PAD};
use crate::config::{Config, Newline};
use crate::decode::{decode_spec, FromBase64Error};
use crate::laws::{lemma_encoded_len, lemma_round_trip};
use crate::text::{ascii_into_string, ascii_text, is_ascii_bytes};

verus! {

/// Three bytes packed into one 24-bit number, the first byte on top.
pub open spec fn packed(b0: u8, b1: u8, b2: u8) -> u32 {
    (b0 as u32) << 16 | (b1 as u32) << 8 | (b2 as u32)
}

/// The six bits of `n` that start at bit `shift`.
pub open spec fn sextet(n: u32, shift: u32) -> u8 {
    ((n >> shift) & 63) as u8
}

/// The bytes of a line break.
pub open spec fn newline_bytes(newline: Newline) -> Seq<u8> {
    match newline {
        Newline::LF => seq![LF],
        Newline::CRLF => seq![CR, LF],
    }
}

/// Whether a line that holds `col` characters is full.
pub open spec fn wrap_due(config: Config, col: nat) -> bool {
    match config.line_length {
        Some(n) => col >= n,
        None => false,
    }
}

/// What is written between a line of `col` characters and the next group:
/// a line break where the line is full, else nothing.
pub open spec fn line_break(config: Config, col: nat) -> Seq<u8> {
    if wrap_due(config, col) {
        newline_bytes(config.newline)
    } else {
        Seq::empty()
    }
}

/// The length of the current line once a group of four has been written
/// after a line of `col` characters.
pub open spec fn next_col(config: Config, col: nat) -> nat {
    if wrap_due(config, col) {
        4
    } else {
        col + 4
    }
}

/// The first `count` characters of the group `n`.
pub open spec fn symbols(cs: CharacterSet, n: u32, count: int) -> Seq<u8> {
    seq![
        symbol(cs, sextet(n, 18)),
        symbol(cs, sextet(n, 12)),
        symbol(cs, sextet(n, 6)),
        symbol(cs, sextet(n, 0)),
    ].take(count)
}

/// The data characters and line breaks for `bytes`, written after a line that
/// already holds `col` characters: four characters for each three bytes, two
/// or three for a last group of one or two bytes, and a line break before each
/// group that follows a full line.
pub open spec fn body(bytes: Seq<u8>, config: Config, col: nat) -> Seq<u8>
    decreases bytes.len(),
{
    if bytes.len() == 0 {
        Seq::empty()
    } else if bytes.len() == 1 {
        line_break(config, col) + symbols(config.char_set, packed(bytes[0], 0, 0), 2)
    } else if bytes.len() == 2 {
        line_break(config, col) + symbols(config.char_set, packed(bytes[0], bytes[1], 0), 3)
    } else {
        line_break(config, col) + symbols(
            config.char_set,
            packed(bytes[0], bytes[1], bytes[2]),
            4,
        ) + body(bytes.skip(3), config, next_col(config, col))
    }
}

/// The padding that closes the encoding of `len` bytes.
pub open spec fn padding(len: nat, pad: bool) -> Seq<u8> {
    if !pad || len % 3 == 0 {
        Seq::empty()
    } else if len % 3 == 1 {
        seq![PAD, PAD]
    } else {
        seq![PAD]
    }
}

/// The base64 text for `bytes` under `config`, as ASCII codes.
pub open spec fn encode_spec(bytes: Seq<u8>, config: Config) -> Seq<u8> {
    body(bytes, config, 0) + padding(bytes.len(), config.pad)
}

/// The number of groups of up to four characters that `len` bytes are written
/// in.
pub open spec fn group_count(len: nat) -> nat {
    (len + 2) / 3
}

/// The number of groups after which a line of the configured length `n` is
/// full.
pub open spec fn groups_per_line(n: nat) -> nat {
    (n + 3) / 4
}

/// The number of line breaks in the encoding of `len` bytes.
pub open spec fn break_count(len: nat, config: Config) -> nat {
    match config.line_length {
        Some(n) => if len == 0 || n == 0 {
            0
        } else {
            ((group_count(len) - 1) / (groups_per_line(n as nat) as int)) as nat
        },
        None => 0,
    }
}

/// The length of the encoding of `len` bytes: its data characters, its
/// padding and its line breaks.
pub open spec fn encoded_len(len: nat, config: Config) -> nat {
    (4 * len + 2) / 3 + padding(len, config.pad).len() + break_count(len, config) * newline_bytes(
        config.newline,
    ).len()
}

/// Computes the length of the encoding of `len` bytes, where a `usize` can
/// hold it.
pub fn encoded_size(len: usize, config: Config) -> (r: Option<usize>)
    requires
        config.well_formed(),
    ensures
        r == (if encoded_len(len as nat, config) <= usize::MAX {
            Some(encoded_len(len as nat, config) as usize)
        } else {
            None
        }),
{
    let n: u128 = len as u128;
    let data: u128 = (4 * n + 2) / 3;
    let pad: u128 = if !config.pad || len % 3 == 0 {
        0
    } else if len % 3 == 1 {
        2
    } else {
        1
    };
    let breaks: u128 = match config.line_length {
        Some(w) => if len == 0 {
            0
        } else {
            let groups: u128 = (n + 2) / 3 - 1;
            let per_line: u128 = (w as u128 + 3) / 4;
            assert(groups / per_line <= groups) by (nonlinear_arith)
                requires
                    per_line >= 1,
            ;
            groups / per_line
        },
        None => 0,
    };
    let break_bytes: u128 = match config.newline {
        Newline::LF => breaks,
        Newline::CRLF => breaks + breaks,
    };
    let total: u128 = data + pad + break_bytes;
    assert(total == encoded_len(len as nat, config)) by {
        assert(breaks == break_count(len as nat, config));
        assert(break_bytes == breaks * newline_bytes(config.newline).len()) by (nonlinear_arith)
            requires
                break_bytes == (if newline_bytes(config.newline).len() == 1 {
                    breaks as int
                } else {
                    breaks + breaks
                }),
                newline_bytes(config.newline).len() == 1 || newline_bytes(config.newline).len()
                    == 2,
        ;
    }
    if total <= usize::MAX as u128 {
        Some(total as usize)
    } else {
        None
    }
}

/// Packs three bytes into a 24-bit group.
fn pack_group(b0: u8, b1: u8, b2: u8) -> (n: u32)
    ensures
        n == packed(b0, b1, b2),
{
    (b0 as u32) << 16 | (b1 as u32) << 8 | (b2 as u32)
}

/// Appends the first `count` characters of the group `n`.
fn push_symbols(out: &mut Vec<u8>, cs: CharacterSet, n: u32, count: usize)
    requires
        2 <= count <= 4,
        is_ascii_bytes(old(out)@),
    ensures
        final(out)@ == old(out)@ + symbols(cs, n, count as int),
        is_ascii_bytes(final(out)@),
{
    let mut k: usize = 0;
    while k < count
        invariant
            k <= count <= 4,
            out@ == old(out)@ + symbols(cs, n, k as int),
            is_ascii_bytes(out@),
        decreases count - k,
    {
        let shift: u32 = if k == 0 {
            18
        } else if k == 1 {
            12
        } else if k == 2 {
            6
        } else {
            0
        };
        assert((n >> shift) & 63 < 64) by (bit_vector);
        let v: u8 = ((n >> shift) & 63) as u8;
        let c: u8 = encode_symbol(cs, v);
        proof {
            lemma_symbol_inverse(cs, v);
            assert(symbols(cs, n, k + 1) =~= symbols(cs, n, k as int).push(c));
        }
        out.push(c);
        k += 1;
    }
}

/// Appends a line break where the line of `col` characters is full, and says
/// whether it did.
fn push_line_break(out: &mut Vec<u8>, config: Config, col: usize) -> (wrapped: bool)
    requires
        is_ascii_bytes(old(out)@),
    ensures
        wrapped == wrap_due(config, col as nat),
        final(out)@ == old(out)@ + line_break(config, col as nat),
        is_ascii_bytes(final(out)@),
{
    let due: bool = match config.line_length {
        Some(n) => col >= n,
        None => false,
    };
    if due {
        match config.newline {
            Newline::LF => {
                out.push(LF);
            },
            Newline::CRLF => {
                out.push(CR);
                out.push(LF);
            },
        }
    }
    assert(out@ =~= old(out)@ + line_break(config, col as nat));
    due
}

/// A trait for converting a value to base64 encoding.
pub trait ToBase64 {
    /// Converts the value of `self` to a base64 value following the specified
    /// format configuration, returning the owned string.
    fn to_base64(&self, config: Config) -> (r: String)
        requires
            config.well_formed(),
    ;
}

impl ToBase64 for [u8] {
    /// Turn a vector of `u8` bytes into a base64 string.
    fn to_base64(&self, config: Config) -> (r: String)
        ensures
            r@ == ascii_text(encode_spec(self@, config)),
            encode_utf8(r@) == encode_spec(self@, config),
            decode_spec(encode_utf8(r@)) == Ok::<Seq<u8>, FromBase64Error>(self@),
            r@.len() == encoded_len(self@.len(), config),
    {
        let len: usize = self.len();
        let mut out: Vec<u8> = match encoded_size(len, config) {
            Some(size) => Vec::with_capacity(size),
            None => Vec::new(),
        };
        let mut col: usize = 0;
        let mut i: usize = 0;
        assert(out@ + body(self@.skip(0), config, 0) =~= body(self@, config, 0)) by {
            assert(self@.skip(0) =~= self@);
        }
        while len - i >= 3
            invariant
                i <= len == self@.len(),
                i % 3 == 0,
                col <= out@.len(),
                is_ascii_bytes(out@),
                out@ + body(self@.skip(i as int), config, col as nat) == body(self@, config, 0),
            decreases len - i,
        {
            let ghost before = out@;
            let ghost rest = self@.skip(i as int);
            let wrapped: bool = push_line_break(&mut out, config, col);
            let n: u32 = pack_group(self[i], self[i + 1], self[i + 2]);
            push_symbols(&mut out, config.char_set, n, 4);
            proof {
                assert(rest.skip(3) =~= self@.skip(i + 3));
                assert(out@ + body(self@.skip(i + 3), config, next_col(config, col as nat))
                    =~= before + body(rest, config, col as nat));
                assert(col + 4 <= out.len());
            }
            col = if wrapped {
                4
            } else {
                col + 4
            };
            i += 3;
        }
        if len - i > 0 {
            let ghost before = out@;
            let ghost rest = self@.skip(i as int);
            push_line_break(&mut out, config, col);
            if len - i == 1 {
                let n: u32 = pack_group(self[i], 0, 0);
                push_symbols(&mut out, config.char_set, n, 2);
            } else {
                let n: u32 = pack_group(self[i], self[i + 1], 0);
                push_symbols(&mut out, config.char_set, n, 3);
            }
            assert(out@ =~= before + body(rest, config, col as nat));
            if config.pad {
                out.push(PAD);
                if len - i == 1 {
                    out.push(PAD);
                }
            }
        }
        assert(out@ =~= encode_spec(self@, config)) by {
            assert(body(self@.skip(i as int), config, col as nat).len() == 0 ==> out@
                =~= body(self@, config, 0));
        }
        proof {
            lemma_round_trip(self@, config);
            lemma_encoded_len(self@, config);
        }
        ascii_into_string(out)
    }
}

} // verus!
