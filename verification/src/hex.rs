//! Bytes written in hexadecimal, taken out of a text by byte offsets.

use vstd::prelude::*;

use crate::numeral::{
    digit, law_further_digit, law_one_digit_numeral, numeral, parse_numeral,
};
use crate::offsets::{byte_len, byte_slice, law_byte_slice_between, slice_bytes};

verus! {

/// Why no byte could be read.
#[derive(Clone, Copy, Debug, PartialEq, Eq, Structural)]
pub enum HexError {
    /// The text is too short, or an offset lies inside a character.
    Cut,
    /// What lies between the offsets writes no byte.
    NotHex,
}

/// The byte that the part of `s` between two byte offsets writes in hexadecimal.
pub open spec fn hex_byte(s: Seq<char>, from: int, to: int) -> Result<u8, HexError> {
    match byte_slice(s, from, to) {
        None => Err(HexError::Cut),
        Some(t) => match numeral(t, 16, 255) {
            None => Err(HexError::NotHex),
            Some(v) => Ok(v as u8),
        },
    }
}

/// One hexadecimal digit writes no more than fifteen.
pub proof fn lemma_one_digit(s: Seq<char>, from: int)
    requires
        from >= 0,
    ensures
        hex_byte(s, from, from + 1) matches Ok(v) ==> v <= 15,
{
    crate::offsets::law_byte_slice_len(s, from, from + 1);
    if let Some(t) = byte_slice(s, from, from + 1) {
        if numeral(t, 16, 255) is Some {
            let d = crate::numeral::unsigned_part(t);
            assert(d.len() == 1);
            assert(crate::numeral::is_digit(d[0], 16));
            assert(d.drop_last().len() == 0);
            assert(crate::numeral::value(d.drop_last(), 16) == 0);
            assert(d.last() == d[0]);
        }
    }
}

/// The byte that the part of `s` between two byte offsets writes in hexadecimal.
pub fn read_hex_byte(s: &[char], from: usize, to: usize) -> (r: Result<u8, HexError>)
    requires
        from <= to,
    ensures
        r == hex_byte(s@, from as int, to as int),
{
    match slice_bytes(s, from, to) {
        None => Err(HexError::Cut),
        Some(t) => match parse_numeral(t, 16, 255) {
            None => Err(HexError::NotHex),
            Some(v) => Ok(v as u8),
        },
    }
}

/// Two digits anywhere in a text write sixteen times the first and the second; what else stands
/// there, in two bytes, writes what it writes as a numeral, or nothing.
pub proof fn law_hex_between(a: Seq<char>, t: Seq<char>, b: Seq<char>, x: char, y: char)
    requires
        crate::numeral::is_digit(x, 16),
        crate::numeral::is_digit(y, 16),
    ensures
        hex_byte(a + seq![x, y] + b, byte_len(a), byte_len(a) + 2) == Ok::<u8, HexError>(
            (16 * digit(x).unwrap() + digit(y).unwrap()) as u8,
        ),
        hex_byte(a + t + b, byte_len(a), byte_len(a) + byte_len(t)) == (match numeral(t, 16, 255) {
            Some(v) => Ok(v as u8),
            None => Err(HexError::NotHex),
        }),
{
    law_byte_slice_between(a, t, b);
    let p = seq![x, y];
    law_byte_slice_between(a, p, b);
    assert(p.skip(1).skip(1).len() == 0);
    assert(byte_len(p.skip(1).skip(1)) == 0);
    assert(p.skip(1)[0] == y);
    assert(byte_len(p.skip(1)) == 1);
    assert(byte_len(p) == 2);
    law_one_digit_numeral(x, 16, 255);
    law_further_digit(seq![x], y, 16, 255);
    assert(seq![x].push(y) =~= p);
}

} // verus!
