//! The decoder.

use vstd::prelude::*;
use vstd::utf8::encode_utf8;
use crate::alphabet::{decode_symbol, is_skip, sextet_of, CR, LF, PAD};
use crate::text::{decimal, text_with_numbers};

verus! {

/// Errors that can occur when decoding a base64 encoded string
#[derive(Clone, Copy, Debug, PartialEq, Eq, Structural)]
pub enum FromBase64Error {
    /// The input contained a character not part of the base64 format
    InvalidBase64Byte(u8, usize),
    /// The input had an invalid length
    InvalidBase64Length,
}

impl FromBase64Error {
    /// The words that name the kind of error.
    pub open spec fn kind_text(self) -> Seq<char> {
        match self {
            FromBase64Error::InvalidBase64Byte(_, _) => "invalid character"@,
            FromBase64Error::InvalidBase64Length => "invalid length"@,
        }
    }

    /// The sentence that tells the error: for an invalid byte, its value
    /// and its position, both in decimal notation.
    pub open spec fn text(self) -> Seq<char> {
        match self {
            FromBase64Error::InvalidBase64Byte(ch, idx) => "Invalid character '"@ + decimal(
                ch as nat,
            ) + "' at position "@ + decimal(idx as nat),
            FromBase64Error::InvalidBase64Length => "Invalid length"@,
        }
    }

    /// A short description of the kind of error.
    pub fn description(&self) -> (s: &'static str)
        ensures
            s@ == self.kind_text(),
    {
        match self {
            FromBase64Error::InvalidBase64Byte(_, _) => "invalid character",
            FromBase64Error::InvalidBase64Length => "invalid length",
        }
    }

    /// The error as a sentence for a reader.
    pub fn to_string(&self) -> (s: String)
        ensures
            s@ == self.text(),
    {
        match self {
            FromBase64Error::InvalidBase64Byte(ch, idx) => text_with_numbers(
                "Invalid character '",
                *ch as usize,
                "' at position ",
                *idx,
            ),
            FromBase64Error::InvalidBase64Length => "Invalid length".to_owned(),
        }
    }
}

/// The 6-bit values of the data characters of `s` up to its first padding
/// character, in order; line breaks in between are passed over.
pub open spec fn sextets(s: Seq<u8>) -> Seq<u8>
    decreases s.len(),
{
    if s.len() == 0 || s[0] == PAD {
        Seq::empty()
    } else {
        match sextet_of(s[0]) {
            Some(v) => seq![v] + sextets(s.skip(1)),
            None => sextets(s.skip(1)),
        }
    }
}

/// The accumulator after one more 6-bit value has been shifted in.
pub open spec fn shift_in(acc: u32, v: u8) -> u32 {
    acc << 6 | (v as u32)
}

/// The eight bits of `n` that start at bit `shift`.
pub open spec fn octet(n: u32, shift: u32) -> u8 {
    ((n >> shift) & 255) as u8
}

/// The bytes that a sequence of 6-bit values stands for: three for each four
/// values, two for three values left over, one for two.
pub open spec fn unpack(vals: Seq<u8>) -> Seq<u8>
    decreases vals.len(),
{
    if vals.len() >= 4 {
        let n = shift_in(shift_in(shift_in(shift_in(0, vals[0]), vals[1]), vals[2]), vals[3]);
        seq![octet(n, 16), octet(n, 8), octet(n, 0)] + unpack(vals.skip(4))
    } else if vals.len() == 3 {
        let n = shift_in(shift_in(shift_in(0, vals[0]), vals[1]), vals[2]);
        seq![octet(n, 10), octet(n, 2)]
    } else if vals.len() == 2 {
        let n = shift_in(shift_in(0, vals[0]), vals[1]);
        seq![octet(n, 4)]
    } else {
        Seq::empty()
    }
}

/// Whether a padding character stands before position `i`.
pub open spec fn padded_before(s: Seq<u8>, i: int) -> bool {
    exists|j: int| 0 <= j < i && #[trigger] s[j] == PAD
}

/// Whether the byte at position `i` makes the input invalid: it is no
/// padding and no line break, and either no data character at all or a data
/// character after the padding has begun.
pub open spec fn offending(s: Seq<u8>, i: int) -> bool {
    &&& 0 <= i < s.len()
    &&& s[i] != PAD
    &&& !is_skip(s[i])
    &&& (sextet_of(s[i]).is_none() || padded_before(s, i))
}

/// Whether no byte of `s` is offending, so that decoding can fail on the
/// length only.
pub open spec fn clean(s: Seq<u8>) -> bool {
    forall|i: int| !offending(s, i)
}

/// Whether `i` is the first position with an offending byte.
pub open spec fn first_offending(s: Seq<u8>, i: int) -> bool {
    &&& offending(s, i)
    &&& forall|j: int| 0 <= j < i ==> !offending(s, j)
}

/// What decoding `s` gives: the first offending byte with its position, if
/// there is one; else the invalid length, if one 6-bit value is left over
/// after the groups of four; else the bytes of the data characters.
pub open spec fn decode_spec(s: Seq<u8>) -> Result<Seq<u8>, FromBase64Error> {
    if !clean(s) {
        let i = choose|i: int| first_offending(s, i);
        Err(FromBase64Error::InvalidBase64Byte(s[i], i as usize))
    } else if sextets(s).len() % 4 == 1 {
        Err(FromBase64Error::InvalidBase64Length)
    } else {
        Ok(unpack(sextets(s)))
    }
}

/// A decoding result with the bytes taken as a sequence.
pub open spec fn decoded(r: Result<Vec<u8>, FromBase64Error>) -> Result<Seq<u8>, FromBase64Error> {
    match r {
        Ok(v) => Ok(v@),
        Err(e) => Err(e),
    }
}

/// The accumulator that holds the pending values, oldest on top.
pub open spec fn accumulated(pending: Seq<u8>) -> u32 {
    if pending.len() == 0 {
        0
    } else if pending.len() == 1 {
        shift_in(0, pending[0])
    } else if pending.len() == 2 {
        shift_in(shift_in(0, pending[0]), pending[1])
    } else if pending.len() == 3 {
        shift_in(shift_in(shift_in(0, pending[0]), pending[1]), pending[2])
    } else {
        shift_in(shift_in(shift_in(shift_in(0, pending[0]), pending[1]), pending[2]), pending[3])
    }
}

/// Extracts eight bits of the accumulator.
fn take_octet(n: u32, shift: u32) -> (b: u8)
    requires
        shift < 32,
    ensures
        b == octet(n, shift),
{
    assert((n >> shift) & 255 < 256) by (bit_vector);
    ((n >> shift) & 255) as u8
}

/// Shifts one 6-bit value into the accumulator.
fn push_sextet(acc: u32, v: u8) -> (r: u32)
    ensures
        r == shift_in(acc, v),
{
    acc << 6 | (v as u32)
}

/// A byte found at position `i` is the first offending one.
proof fn lemma_first_offending(s: Seq<u8>, i: int)
    requires
        first_offending(s, i),
    ensures
        decode_spec(s) == Err::<Seq<u8>, FromBase64Error>(
            FromBase64Error::InvalidBase64Byte(s[i], i as usize),
        ),
{
    let k = choose|k: int| first_offending(s, k);
    assert(first_offending(s, k));
    assert(k == i) by {
        if k < i {
            assert(!offending(s, k));
        } else if i < k {
            assert(!offending(s, i));
        }
    }
}

/// A trait for converting from base64 encoded values.
pub trait FromBase64 {
    /// Converts the value of `self`, interpreted as base64 encoded data, into
    /// an owned vector of bytes, returning the vector.
    fn from_base64(&self) -> (r: Result<Vec<u8>, FromBase64Error>);
}

impl FromBase64 for [u8] {
    /// Decodes base64 text given as bytes.
    fn from_base64(&self) -> (r: Result<Vec<u8>, FromBase64Error>)
        ensures
            decoded(r) == decode_spec(self@),
    {
        let len: usize = self.len();
        let mut r: Vec<u8> = Vec::with_capacity(len);
        let mut acc: u32 = 0;
        let mut modulus: u8 = 0;
        let mut padded: bool = false;
        let mut i: usize = 0;
        let ghost mut pending: Seq<u8> = Seq::empty();
        let ghost mut groups: nat = 0;
        let ghost mut pad_at: int = len as int;
        proof {
            assert(self@.skip(0) =~= self@);
            assert(pending + sextets(self@) =~= sextets(self@));
        }
        while i < len && !padded
            invariant
                i <= len == self@.len(),
                modulus == pending.len() < 4,
                acc == accumulated(pending),
                padded ==> 0 <= pad_at == i - 1 && self@[pad_at] == PAD,
                !padded ==> pad_at == len,
                forall|j: int|
                    0 <= j < i && j < pad_at ==> sextet_of(#[trigger] self@[j]).is_some()
                        || is_skip(self@[j]),
                sextets(self@).len() == 4 * groups + pending.len() + (if padded {
                    Seq::empty()
                } else {
                    sextets(self@.skip(i as int))
                }).len(),
                unpack(sextets(self@)) == r@ + unpack(
                    pending + (if padded {
                        Seq::empty()
                    } else {
                        sextets(self@.skip(i as int))
                    }),
                ),
            decreases len - i,
        {
            let byte: u8 = self[i];
            let ghost rest = self@.skip(i as int);
            let ghost after = sextets(self@.skip(i + 1));
            proof {
                assert(rest.skip(1) =~= self@.skip(i + 1));
                assert(rest[0] == byte);
            }
            match decode_symbol(byte) {
                Some(v) => {
                    acc = push_sextet(acc, v);
                    modulus += 1;
                    proof {
                        assert(pending.push(v) + after =~= pending + sextets(rest));
                        pending = pending.push(v);
                    }
                    if modulus == 4 {
                        r.push(take_octet(acc, 16));
                        r.push(take_octet(acc, 8));
                        r.push(take_octet(acc, 0));
                        proof {
                            assert((pending + after).skip(4) =~= after);
                            assert(Seq::<u8>::empty() + after =~= after);
                            pending = Seq::empty();
                            groups = groups + 1;
                        }
                        acc = 0;
                        modulus = 0;
                    }
                },
                None => {
                    if byte == CR || byte == LF {
                    } else if byte == PAD {
                        padded = true;
                        proof {
                            pad_at = i as int;
                        }
                    } else {
                        proof {
                            assert(!padded_before(self@, i as int));
                            lemma_first_offending(self@, i as int);
                        }
                        return Err(FromBase64Error::InvalidBase64Byte(byte, i));
                    }
                },
            }
            i += 1;
        }
        while i < len
            invariant
                i <= len == self@.len(),
                i < len ==> padded,
                padded ==> 0 <= pad_at < i && self@[pad_at] == PAD,
                !padded ==> pad_at == len,
                forall|j: int|
                    0 <= j < i && j < pad_at ==> sextet_of(#[trigger] self@[j]).is_some()
                        || is_skip(self@[j]),
                forall|j: int|
                    pad_at <= j < i ==> #[trigger] self@[j] == PAD || is_skip(self@[j]),
            decreases len - i,
        {
            let byte: u8 = self[i];
            if byte == PAD || byte == CR || byte == LF {
            } else {
                proof {
                    assert(padded_before(self@, i as int));
                    lemma_first_offending(self@, i as int);
                }
                return Err(FromBase64Error::InvalidBase64Byte(byte, i));
            }
            i += 1;
        }
        proof {
            assert(forall|j: int| !offending(self@, j));
            assert(self@.skip(len as int) =~= Seq::<u8>::empty());
            assert(pending + Seq::<u8>::empty() =~= pending);
            assert(sextets(self@).len() % 4 == modulus as int);
        }
        let ghost whole = r@;
        if modulus == 1 {
            return Err(FromBase64Error::InvalidBase64Length);
        } else if modulus == 2 {
            r.push(take_octet(acc, 4));
        } else if modulus == 3 {
            r.push(take_octet(acc, 10));
            r.push(take_octet(acc, 2));
        }
        assert(r@ =~= whole + unpack(pending));
        Ok(r)
    }
}

impl FromBase64 for str {
    /// Convert any base64 encoded string to the byte values it encodes.
    fn from_base64(&self) -> (r: Result<Vec<u8>, FromBase64Error>)
        ensures
            decoded(r) == decode_spec(encode_utf8(self@)),
    {
        self.as_bytes().from_base64()
    }
}

} // verus!
