//! What holds of the encoder and the decoder together.

use vstd::prelude::*;
use vstd::arithmetic::div_mod::{lemma_basic_div, lemma_div_plus_one};
use crate::alphabet::{
    in_alphabet, is_skip, lemma_symbol_inverse, sextet_of, symbol, CharacterSet, PAD,
};
use crate::config::Config;
use crate::decode::{clean, decode_spec, offending, sextets, unpack, FromBase64Error};
use crate::encode::{
    body, encode_spec, encoded_len, group_count, groups_per_line, line_break, newline_bytes,
    next_col, packed, padding, sextet, symbols, wrap_due,
};

verus! {

/// The four 6-bit values of a 24-bit group, most significant first.
pub open spec fn group_values(n: u32) -> Seq<u8> {
    seq![sextet(n, 18), sextet(n, 12), sextet(n, 6), sextet(n, 0)]
}

/// The values of a sequence without padding characters, followed by those of
/// what comes after it.
pub proof fn lemma_sextets_concat(prefix: Seq<u8>, rest: Seq<u8>)
    requires
        forall|i: int| 0 <= i < prefix.len() ==> prefix[i] != PAD,
    ensures
        sextets(prefix + rest) == sextets(prefix) + sextets(rest),
    decreases prefix.len(),
{
    if prefix.len() == 0 {
        assert(prefix + rest =~= rest);
        assert(sextets(prefix) + sextets(rest) =~= sextets(rest));
    } else {
        assert((prefix + rest).skip(1) =~= prefix.skip(1) + rest);
        assert((prefix + rest)[0] == prefix[0]);
        lemma_sextets_concat(prefix.skip(1), rest);
        assert(sextets(prefix + rest) =~= sextets(prefix) + sextets(rest));
    }
}

/// Line breaks carry no values.
pub proof fn lemma_sextets_of_skips(s: Seq<u8>)
    requires
        forall|i: int| 0 <= i < s.len() ==> is_skip(s[i]),
    ensures
        sextets(s) == Seq::<u8>::empty(),
    decreases s.len(),
{
    if s.len() > 0 {
        lemma_sextets_of_skips(s.skip(1));
    }
}

/// Data characters carry their values, one each.
pub proof fn lemma_sextets_of_data(s: Seq<u8>, vals: Seq<u8>)
    requires
        s.len() == vals.len(),
        forall|i: int| 0 <= i < s.len() ==> sextet_of(s[i]) == Some(vals[i]),
    ensures
        sextets(s) == vals,
    decreases s.len(),
{
    if s.len() > 0 {
        lemma_sextets_of_data(s.skip(1), vals.skip(1));
        assert(seq![vals[0]] + vals.skip(1) =~= vals);
    } else {
        assert(vals =~= Seq::<u8>::empty());
    }
}

/// The characters of a group are read back as the leading values of the group.
pub proof fn lemma_sextets_of_symbols(cs: CharacterSet, n: u32, count: int)
    requires
        0 <= count <= 4,
    ensures
        sextets(symbols(cs, n, count)) == group_values(n).take(count),
        forall|i: int|
            0 <= i < count ==> in_alphabet(cs, #[trigger] symbols(cs, n, count)[i]) && symbols(
                cs,
                n,
                count,
            )[i] != PAD,
        symbols(cs, n, count).len() == count,
{
    assert((n >> 18) & 63 < 64) by (bit_vector);
    assert((n >> 12) & 63 < 64) by (bit_vector);
    assert((n >> 6) & 63 < 64) by (bit_vector);
    assert((n >> 0) & 63 < 64) by (bit_vector);
    lemma_symbol_inverse(cs, sextet(n, 18));
    lemma_symbol_inverse(cs, sextet(n, 12));
    lemma_symbol_inverse(cs, sextet(n, 6));
    lemma_symbol_inverse(cs, sextet(n, 0));
    lemma_sextets_of_data(symbols(cs, n, count), group_values(n).take(count));
}

/// Four values taken from three bytes give the three bytes back.
pub proof fn lemma_unpack_full(b0: u8, b1: u8, b2: u8)
    ensures
        unpack(group_values(packed(b0, b1, b2))) == seq![b0, b1, b2],
{
    let n = packed(b0, b1, b2);
    let vals = group_values(n);
    let x0 = b0 as u32;
    let x1 = b1 as u32;
    let x2 = b2 as u32;
    let s0 = (n >> 18) & 63;
    let s1 = (n >> 12) & 63;
    let s2 = (n >> 6) & 63;
    let s3 = (n >> 0) & 63;
    assert(s0 < 64 && s1 < 64 && s2 < 64 && s3 < 64 && {
        let m = (((0u32 << 6 | s0) << 6 | s1) << 6 | s2) << 6 | s3;
        (m >> 16) & 255 == x0 && (m >> 8) & 255 == x1 && (m >> 0) & 255 == x2
    }) by (bit_vector)
        requires
            x0 < 256 && x1 < 256 && x2 < 256,
            n == x0 << 16 | x1 << 8 | x2,
            s0 == (n >> 18) & 63,
            s1 == (n >> 12) & 63,
            s2 == (n >> 6) & 63,
            s3 == (n >> 0) & 63,
    ;
    assert(unpack(vals.skip(4)) =~= Seq::<u8>::empty());
    assert(unpack(vals) =~= seq![b0, b1, b2]);
}

/// Three values taken from two bytes give the two bytes back.
pub proof fn lemma_unpack_two(b0: u8, b1: u8)
    ensures
        unpack(group_values(packed(b0, b1, 0)).take(3)) == seq![b0, b1],
{
    let n = packed(b0, b1, 0);
    let vals = group_values(n).take(3);
    let x0 = b0 as u32;
    let x1 = b1 as u32;
    let s0 = (n >> 18) & 63;
    let s1 = (n >> 12) & 63;
    let s2 = (n >> 6) & 63;
    assert(s0 < 64 && s1 < 64 && s2 < 64 && {
        let m = ((0u32 << 6 | s0) << 6 | s1) << 6 | s2;
        (m >> 10) & 255 == x0 && (m >> 2) & 255 == x1
    }) by (bit_vector)
        requires
            x0 < 256 && x1 < 256,
            n == x0 << 16 | x1 << 8 | 0u32,
            s0 == (n >> 18) & 63,
            s1 == (n >> 12) & 63,
            s2 == (n >> 6) & 63,
    ;
    assert(unpack(vals) =~= seq![b0, b1]);
}

/// Two values taken from one byte give the byte back.
pub proof fn lemma_unpack_one(b0: u8)
    ensures
        unpack(group_values(packed(b0, 0, 0)).take(2)) == seq![b0],
{
    let n = packed(b0, 0, 0);
    let vals = group_values(n).take(2);
    let x0 = b0 as u32;
    let s0 = (n >> 18) & 63;
    let s1 = (n >> 12) & 63;
    assert(s0 < 64 && s1 < 64 && {
        let m = (0u32 << 6 | s0) << 6 | s1;
        (m >> 4) & 255 == x0
    }) by (bit_vector)
        requires
            x0 < 256,
            n == x0 << 16 | 0u32 << 8 | 0u32,
            s0 == (n >> 18) & 63,
            s1 == (n >> 12) & 63,
    ;
    assert(unpack(vals) =~= seq![b0]);
}

/// Every character of the encoder's body is a character of the chosen
/// alphabet or part of a line break.
pub proof fn lemma_body_characters(bytes: Seq<u8>, config: Config, col: nat)
    ensures
        forall|i: int|
            0 <= i < body(bytes, config, col).len() ==> {
                let c = #[trigger] body(bytes, config, col)[i];
                in_alphabet(config.char_set, c) || is_skip(c)
            },
    decreases bytes.len(),
{
    let cs = config.char_set;
    let b = body(bytes, config, col);
    let lb = line_break(config, col);
    if bytes.len() > 0 {
        let count: int = if bytes.len() <= 2 {
            bytes.len() as int + 1
        } else {
            4
        };
        let n = if bytes.len() == 1 {
            packed(bytes[0], 0, 0)
        } else if bytes.len() == 2 {
            packed(bytes[0], bytes[1], 0)
        } else {
            packed(bytes[0], bytes[1], bytes[2])
        };
        let syms = symbols(cs, n, count);
        lemma_sextets_of_symbols(cs, n, count);
        if bytes.len() > 2 {
            lemma_body_characters(bytes.skip(3), config, next_col(config, col));
        }
        assert forall|i: int| 0 <= i < b.len() implies {
            let c = #[trigger] b[i];
            in_alphabet(cs, c) || is_skip(c)
        } by {
            if i < lb.len() {
                assert(b[i] == lb[i]);
            } else if i < lb.len() + count {
                assert(b[i] == syms[i - lb.len()]);
            } else {
                let rest = body(bytes.skip(3), config, next_col(config, col));
                assert(b[i] == rest[i - lb.len() - count]);
            }
        }
    }
}

/// The 6-bit values that a byte sequence is cut into: four for each three
/// bytes, two or three for a last group of one or two bytes.
pub open spec fn values(bytes: Seq<u8>) -> Seq<u8>
    decreases bytes.len(),
{
    if bytes.len() == 0 {
        Seq::empty()
    } else if bytes.len() == 1 {
        group_values(packed(bytes[0], 0, 0)).take(2)
    } else if bytes.len() == 2 {
        group_values(packed(bytes[0], bytes[1], 0)).take(3)
    } else {
        group_values(packed(bytes[0], bytes[1], bytes[2])) + values(bytes.skip(3))
    }
}

/// The values of a byte sequence unpack to the byte sequence, and never
/// leave a single value over.
pub proof fn lemma_unpack_values(bytes: Seq<u8>)
    ensures
        unpack(values(bytes)) == bytes,
        values(bytes).len() % 4 != 1,
    decreases bytes.len(),
{
    if bytes.len() == 0 {
        assert(bytes =~= Seq::<u8>::empty());
    } else if bytes.len() == 1 {
        lemma_unpack_one(bytes[0]);
        assert(bytes =~= seq![bytes[0]]);
    } else if bytes.len() == 2 {
        lemma_unpack_two(bytes[0], bytes[1]);
        assert(bytes =~= seq![bytes[0], bytes[1]]);
    } else {
        let vals = group_values(packed(bytes[0], bytes[1], bytes[2]));
        let more = values(bytes.skip(3));
        lemma_unpack_values(bytes.skip(3));
        lemma_unpack_full(bytes[0], bytes[1], bytes[2]);
        lemma_unpack_group(vals, more);
        assert(seq![bytes[0], bytes[1], bytes[2]] + bytes.skip(3) =~= bytes);
    }
}

/// Unpacking goes group by group.
pub proof fn lemma_unpack_group(vals: Seq<u8>, more: Seq<u8>)
    requires
        vals.len() == 4,
    ensures
        unpack(vals + more) == unpack(vals) + unpack(more),
{
    let all = vals + more;
    assert(all.skip(4) =~= more);
    assert(unpack(vals.skip(4)) =~= Seq::<u8>::empty());
    assert(unpack(vals) + unpack(more) =~= unpack(all));
}

/// The characters that stand for a sequence of 6-bit values.
pub open spec fn symbols_of(cs: CharacterSet, vals: Seq<u8>) -> Seq<u8> {
    Seq::new(vals.len(), |i: int| symbol(cs, vals[i]))
}

/// A byte sequence of length `n` is cut into `n * 4 / 3` values, rounded up.
pub proof fn lemma_values_len(bytes: Seq<u8>)
    ensures
        values(bytes).len() == (4 * bytes.len() + 2) / 3,
    decreases bytes.len(),
{
    if bytes.len() > 2 {
        lemma_values_len(bytes.skip(3));
    }
}

/// Without line wrapping the encoder's body is the characters of the values
/// of the bytes, one after the other.
pub proof fn lemma_unwrapped_body(bytes: Seq<u8>, config: Config, col: nat)
    requires
        config.line_length is None,
    ensures
        body(bytes, config, col) == symbols_of(config.char_set, values(bytes)),
    decreases bytes.len(),
{
    let cs = config.char_set;
    if bytes.len() > 2 {
        lemma_unwrapped_body(bytes.skip(3), config, next_col(config, col));
    }
    assert(body(bytes, config, col) =~= symbols_of(cs, values(bytes)));
}

/// The test that keeps every byte but those of line breaks.
pub open spec fn not_break() -> spec_fn(u8) -> bool {
    |b: u8| !is_skip(b)
}

/// A text with its line breaks taken out.
pub open spec fn without_breaks(s: Seq<u8>) -> Seq<u8> {
    s.filter(not_break())
}

/// Nothing is left of line breaks once they are taken out.
pub proof fn lemma_breaks_vanish(s: Seq<u8>)
    requires
        forall|i: int| 0 <= i < s.len() ==> is_skip(s[i]),
    ensures
        without_breaks(s) == Seq::<u8>::empty(),
    decreases s.len(),
{
    reveal(Seq::filter);
    if s.len() > 0 {
        lemma_breaks_vanish(s.drop_last());
    }
}

/// A text without line breaks stays as it is.
pub proof fn lemma_others_stay(s: Seq<u8>)
    requires
        forall|i: int| 0 <= i < s.len() ==> !is_skip(s[i]),
    ensures
        without_breaks(s) == s,
    decreases s.len(),
{
    reveal(Seq::filter);
    if s.len() > 0 {
        lemma_others_stay(s.drop_last());
        assert(s.drop_last().push(s.last()) =~= s);
    }
}

/// Taking the line breaks out of a line break, a piece without line breaks
/// and a rest leaves the piece and what is left of the rest.
pub proof fn lemma_without_breaks_pieces(lb: Seq<u8>, piece: Seq<u8>, rest: Seq<u8>)
    requires
        forall|i: int| 0 <= i < lb.len() ==> is_skip(lb[i]),
        forall|i: int| 0 <= i < piece.len() ==> !is_skip(piece[i]),
    ensures
        without_breaks(lb + piece + rest) == piece + without_breaks(rest),
{
    lemma_breaks_vanish(lb);
    lemma_others_stay(piece);
    Seq::filter_distributes_over_add(lb, piece, not_break());
    Seq::filter_distributes_over_add(lb + piece, rest, not_break());
    assert(Seq::<u8>::empty() + piece =~= piece);
}

/// Line wrapping adds line breaks and nothing else: with them taken out, the
/// encoder's body is the body that is written without line wrapping.
pub proof fn lemma_body_without_breaks(bytes: Seq<u8>, config: Config, col: nat, plain_col: nat)
    ensures
        without_breaks(body(bytes, config, col)) == body(
            bytes,
            (Config { line_length: None, ..config }),
            plain_col,
        ),
    decreases bytes.len(),
{
    let cs = config.char_set;
    let plain = Config { line_length: None, ..config };
    let lb = line_break(config, col);
    let nothing = Seq::<u8>::empty();
    lemma_breaks_vanish(nothing);
    if bytes.len() == 0 {
    } else if bytes.len() == 1 {
        let syms = symbols(cs, packed(bytes[0], 0, 0), 2);
        lemma_sextets_of_symbols(cs, packed(bytes[0], 0, 0), 2);
        lemma_without_breaks_pieces(lb, syms, nothing);
        assert(lb + syms + nothing =~= lb + syms);
        assert(syms + nothing =~= nothing + syms);
    } else if bytes.len() == 2 {
        let syms = symbols(cs, packed(bytes[0], bytes[1], 0), 3);
        lemma_sextets_of_symbols(cs, packed(bytes[0], bytes[1], 0), 3);
        lemma_without_breaks_pieces(lb, syms, nothing);
        assert(lb + syms + nothing =~= lb + syms);
        assert(syms + nothing =~= nothing + syms);
    } else {
        let syms = symbols(cs, packed(bytes[0], bytes[1], bytes[2]), 4);
        let rest = body(bytes.skip(3), config, next_col(config, col));
        lemma_sextets_of_symbols(cs, packed(bytes[0], bytes[1], bytes[2]), 4);
        lemma_body_without_breaks(
            bytes.skip(3),
            config,
            next_col(config, col),
            next_col(plain, plain_col),
        );
        lemma_without_breaks_pieces(lb, syms, rest);
        assert(syms + without_breaks(rest) =~= nothing + syms + without_breaks(rest));
    }
}

/// The encoding with line wrapping is the encoding without, with line breaks
/// put in.
pub proof fn lemma_wrapping_adds_breaks_only(bytes: Seq<u8>, config: Config)
    ensures
        without_breaks(encode_spec(bytes, config)) == encode_spec(
            bytes,
            (Config { line_length: None, ..config }),
        ),
{
    let pad = padding(bytes.len(), config.pad);
    lemma_body_without_breaks(bytes, config, 0, 0);
    lemma_others_stay(pad);
    Seq::filter_distributes_over_add(body(bytes, config, 0), pad, not_break());
}

/// The values of a line break, a piece without padding and a rest are those
/// of the piece and those of the rest.
pub proof fn lemma_sextets_pieces(lb: Seq<u8>, piece: Seq<u8>, rest: Seq<u8>)
    requires
        forall|i: int| 0 <= i < lb.len() ==> is_skip(lb[i]),
        forall|i: int| 0 <= i < piece.len() ==> piece[i] != PAD,
    ensures
        sextets(lb + piece + rest) == sextets(piece) + sextets(rest),
{
    lemma_sextets_of_skips(lb);
    lemma_sextets_concat(piece, rest);
    lemma_sextets_concat(lb, piece + rest);
    assert(lb + piece + rest =~= lb + (piece + rest));
    assert(Seq::<u8>::empty() + sextets(piece + rest) =~= sextets(piece + rest));
}

/// The data characters of the encoder's body, followed by anything that is
/// empty or starts with padding, carry the values of the encoded bytes.
pub proof fn lemma_body_values(bytes: Seq<u8>, config: Config, col: nat, tail: Seq<u8>)
    requires
        tail.len() == 0 || tail[0] == PAD,
    ensures
        sextets(body(bytes, config, col) + tail) == values(bytes),
    decreases bytes.len(),
{
    let cs = config.char_set;
    let lb = line_break(config, col);
    let whole = body(bytes, config, col) + tail;
    assert(sextets(tail) =~= Seq::<u8>::empty());
    if bytes.len() == 0 {
        assert(whole =~= tail);
    } else if bytes.len() == 1 {
        let n = packed(bytes[0], 0, 0);
        lemma_sextets_of_symbols(cs, n, 2);
        lemma_sextets_pieces(lb, symbols(cs, n, 2), tail);
        assert(group_values(n).take(2) + Seq::<u8>::empty() =~= group_values(n).take(2));
    } else if bytes.len() == 2 {
        let n = packed(bytes[0], bytes[1], 0);
        lemma_sextets_of_symbols(cs, n, 3);
        lemma_sextets_pieces(lb, symbols(cs, n, 3), tail);
        assert(group_values(n).take(3) + Seq::<u8>::empty() =~= group_values(n).take(3));
    } else {
        let n = packed(bytes[0], bytes[1], bytes[2]);
        let more = body(bytes.skip(3), config, next_col(config, col)) + tail;
        lemma_sextets_of_symbols(cs, n, 4);
        lemma_body_values(bytes.skip(3), config, next_col(config, col), tail);
        lemma_sextets_pieces(lb, symbols(cs, n, 4), more);
        assert(whole =~= lb + symbols(cs, n, 4) + more);
        assert(group_values(n).take(4) =~= group_values(n));
    }
}

/// The encoder's output holds nothing but characters of the chosen alphabet,
/// padding characters and the bytes of line breaks.
pub proof fn lemma_encode_characters(bytes: Seq<u8>, config: Config)
    ensures
        forall|i: int|
            0 <= i < encode_spec(bytes, config).len() ==> {
                let c = #[trigger] encode_spec(bytes, config)[i];
                in_alphabet(config.char_set, c) || c == PAD || is_skip(c)
            },
{
    lemma_body_characters(bytes, config, 0);
    let b = body(bytes, config, 0);
    assert forall|i: int| 0 <= i < encode_spec(bytes, config).len() implies {
        let c = #[trigger] encode_spec(bytes, config)[i];
        in_alphabet(config.char_set, c) || c == PAD || is_skip(c)
    } by {
        if i < b.len() {
            assert(encode_spec(bytes, config)[i] == b[i]);
        }
    }
}

/// The encoder's output never holds an offending byte.
pub proof fn lemma_encode_is_clean(bytes: Seq<u8>, config: Config)
    ensures
        clean(encode_spec(bytes, config)),
{
    lemma_body_characters(bytes, config, 0);
    let b = body(bytes, config, 0);
    let s = encode_spec(bytes, config);
    assert forall|i: int| !offending(s, i) by {
        if 0 <= i < b.len() {
            assert(s[i] == b[i]);
            assert forall|j: int| 0 <= j < i implies #[trigger] s[j] != PAD by {
                assert(s[j] == b[j]);
            }
        }
    }
}

/// Decoding what the encoder wrote gives the encoded bytes back, whatever the
/// alphabet, the padding, the line length and the kind of line break.
pub proof fn lemma_round_trip(bytes: Seq<u8>, config: Config)
    ensures
        decode_spec(encode_spec(bytes, config)) == Ok::<Seq<u8>, FromBase64Error>(bytes),
{
    lemma_encode_is_clean(bytes, config);
    lemma_body_values(bytes, config, 0, padding(bytes.len(), config.pad));
    lemma_unpack_values(bytes);
}

/// A line break put in front of a text, or anywhere before its padding,
/// leaves its values as they are.
pub proof fn lemma_sextets_skip_inserted(a: Seq<u8>, c: u8, b: Seq<u8>)
    requires
        is_skip(c),
    ensures
        sextets(a + seq![c] + b) == sextets(a + b),
    decreases a.len(),
{
    let with = a + seq![c] + b;
    if a.len() == 0 {
        assert(with.skip(1) =~= b);
        assert(a + b =~= b);
    } else {
        assert(with.skip(1) =~= a.skip(1) + seq![c] + b);
        assert((a + b).skip(1) =~= a.skip(1) + b);
        lemma_sextets_skip_inserted(a.skip(1), c, b);
    }
}

/// The decoder passes over line breaks: a text without an offending byte
/// decodes to the same result with a carriage return or a line feed put in at
/// any position.
pub proof fn lemma_line_break_ignored(a: Seq<u8>, c: u8, b: Seq<u8>)
    requires
        is_skip(c),
        clean(a + b),
    ensures
        clean(a + seq![c] + b),
        decode_spec(a + seq![c] + b) == decode_spec(a + b),
{
    let plain = a + b;
    let with = a + seq![c] + b;
    lemma_sextets_skip_inserted(a, c, b);
    assert forall|i: int| !offending(with, i) by {
        if offending(with, i) {
            if i < a.len() {
                assert(with[i] == plain[i]);
                if sextet_of(with[i]).is_some() {
                    let j = choose|j: int| 0 <= j < i && #[trigger] with[j] == PAD;
                    assert(plain[j] == PAD);
                }
                assert(offending(plain, i));
            } else if i > a.len() {
                assert(with[i] == plain[i - 1]);
                if sextet_of(with[i]).is_some() {
                    let j = choose|j: int| 0 <= j < i && #[trigger] with[j] == PAD;
                    if j < a.len() {
                        assert(plain[j] == PAD);
                    } else {
                        assert(plain[j - 1] == PAD);
                    }
                }
                assert(offending(plain, i - 1));
            }
        }
    }
}

/// Whether `t` is `s` with some data characters replaced by characters of
/// the same value, which may belong to the other alphabet.
pub open spec fn same_values(s: Seq<u8>, t: Seq<u8>) -> bool {
    &&& s.len() == t.len()
    &&& forall|i: int|
        #![trigger s[i]]
        #![trigger t[i]]
        0 <= i < s.len() ==> s[i] == t[i] || (sextet_of(s[i]).is_some() && sextet_of(s[i])
            == sextet_of(t[i]))
}

/// Texts that differ in the alphabet of their characters only carry the same
/// values.
pub proof fn lemma_sextets_same_values(s: Seq<u8>, t: Seq<u8>)
    requires
        same_values(s, t),
    ensures
        sextets(s) == sextets(t),
    decreases s.len(),
{
    if s.len() > 0 {
        assert(s[0] == t[0] || sextet_of(s[0]) == sextet_of(t[0]));
        assert forall|i: int| 0 <= i < s.skip(1).len() implies #[trigger] s.skip(1)[i] == t.skip(
            1,
        )[i] || (sextet_of(s.skip(1)[i]).is_some() && sextet_of(s.skip(1)[i]) == sextet_of(
            t.skip(1)[i],
        )) by {
            assert(s.skip(1)[i] == s[i + 1] && t.skip(1)[i] == t[i + 1]);
        }
        lemma_sextets_same_values(s.skip(1), t.skip(1));
    }
}

/// The decoder does not tell the alphabets apart: a text without an
/// offending byte decodes to the same result as every text with characters of
/// the same values, also where the two alphabets are mixed.
pub proof fn lemma_alphabets_interchangeable(s: Seq<u8>, t: Seq<u8>)
    requires
        same_values(s, t),
        clean(s),
    ensures
        clean(t),
        decode_spec(t) == decode_spec(s),
{
    lemma_sextets_same_values(s, t);
    assert forall|i: int| !offending(t, i) by {
        if offending(t, i) {
            assert(s[i] == t[i] || sextet_of(s[i]) == sextet_of(t[i]));
            if sextet_of(t[i]).is_some() {
                let j = choose|j: int| 0 <= j < i && #[trigger] t[j] == PAD;
                assert(s[j] == PAD);
            }
            assert(offending(s, i));
        }
    }
}

/// The number of line breaks in the encoding of `len` bytes when it is
/// written after a line that holds `filled` groups.
pub open spec fn breaks_after(len: nat, config: Config, filled: nat) -> nat {
    match config.line_length {
        Some(n) => if len == 0 || n == 0 {
            0
        } else {
            ((group_count(len) + filled - 1) / (groups_per_line(n as nat) as int)) as nat
        },
        None => 0,
    }
}

/// The length of the encoder's body when it is written after a line that
/// holds `filled` groups.
pub proof fn lemma_body_len(bytes: Seq<u8>, config: Config, filled: nat)
    requires
        config.well_formed(),
        config.line_length matches Some(n) ==> filled <= groups_per_line(n as nat),
    ensures
        body(bytes, config, 4 * filled).len() == (4 * bytes.len() + 2) / 3 + breaks_after(
            bytes.len(),
            config,
            filled,
        ) * newline_bytes(config.newline).len(),
    decreases bytes.len(),
{
    let cs = config.char_set;
    let len = bytes.len();
    let nl = newline_bytes(config.newline).len();
    let due = wrap_due(config, 4 * filled);
    let here: nat = if due {
        1
    } else {
        0
    };
    let after: nat = if due {
        1
    } else {
        filled + 1
    };
    let g = group_count(len) as int;
    let lb = line_break(config, 4 * filled);
    assert(lb.len() == here * nl);
    if len > 0 {
        let left: nat = if len > 3 {
            (len - 3) as nat
        } else {
            0
        };
        let later = breaks_after(left, config, after);
        assert(breaks_after(len, config, filled) == here + later) by {
            if let Some(n) = config.line_length {
                let p = groups_per_line(n as nat) as int;
                assert(p >= 1);
                assert(due <==> filled == p);
                if len <= 3 {
                    assert(g == 1);
                    if due {
                        lemma_div_plus_one(0, p);
                        lemma_basic_div(0, p);
                        assert(g + filled - 1 == p + 0);
                    } else {
                        lemma_basic_div(filled as int, p);
                    }
                } else {
                    assert(group_count(left) == g - 1);
                    if due {
                        lemma_div_plus_one(g - 1, p);
                        assert(g + filled - 1 == p + (g - 1));
                        assert(group_count(left) + after - 1 == g - 1);
                    } else {
                        assert(group_count(left) + after - 1 == g + filled - 1);
                    }
                }
            }
        }
        assert((here + later) * nl == here * nl + later * nl) by (nonlinear_arith);
        if len == 1 {
            lemma_sextets_of_symbols(cs, packed(bytes[0], 0, 0), 2);
            assert(body(bytes, config, 4 * filled).len() == lb.len() + 2);
        } else if len == 2 {
            lemma_sextets_of_symbols(cs, packed(bytes[0], bytes[1], 0), 3);
            assert(body(bytes, config, 4 * filled).len() == lb.len() + 3);
        } else {
            lemma_sextets_of_symbols(cs, packed(bytes[0], bytes[1], bytes[2]), 4);
            assert(next_col(config, 4 * filled) == 4 * after);
            lemma_body_len(bytes.skip(3), config, after);
            let rest = body(bytes.skip(3), config, 4 * after);
            assert(bytes.skip(3).len() == len - 3);
            assert(rest.len() == (4 * (len - 3) + 2) / 3 + later * nl);
            assert(body(bytes, config, 4 * filled).len() == lb.len() + 4 + rest.len());
        }
        assert(later * nl == 0 || len > 3);
        assert(body(bytes, config, 4 * filled).len() == (4 * len + 2) / 3 + here * nl + later * nl);
        assert(breaks_after(len, config, filled) * nl == (here + later) * nl);
    } else {
        assert(body(bytes, config, 4 * filled).len() == 0);
        assert(breaks_after(len, config, filled) == 0);
        assert(breaks_after(len, config, filled) * nl == 0);
    }
}

/// The length of the encoding: four characters for each three bytes, two or
/// three for a last group of one or two bytes, the padding, and one line break
/// after each full line that another group follows.
pub proof fn lemma_encoded_len(bytes: Seq<u8>, config: Config)
    requires
        config.well_formed(),
    ensures
        encode_spec(bytes, config).len() == encoded_len(bytes.len(), config),
{
    lemma_body_len(bytes, config, 0);
}

/// Nothing encodes to nothing under every configuration, and nothing
/// decodes to nothing.
pub proof fn lemma_empty(config: Config)
    ensures
        encode_spec(Seq::<u8>::empty(), config) == Seq::<u8>::empty(),
        decode_spec(Seq::<u8>::empty()) == Ok::<Seq<u8>, FromBase64Error>(Seq::<u8>::empty()),
{
    assert(encode_spec(Seq::<u8>::empty(), config) =~= Seq::<u8>::empty());
}

} // verus!
