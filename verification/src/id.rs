//! Transaction identifiers: 128-bit numbers written as 26 characters of
//! Crockford's base 32.

use crate::text::{lemma_decode_unique, text_of_bytes};
use vstd::prelude::*;
use vstd::utf8::{decode_utf8, is_ascii_chars, valid_utf8};

verus! {

/// The character that stands for a digit of base 32: the decimal digits, then
/// the capital letters without `I`, `L`, `O` and `U`.
pub open spec fn crockford_char(d: nat) -> char {
    if d < 10 {
        ((48 + d) as u8) as char
    } else if d < 18 {
        ((55 + d) as u8) as char
    } else if d < 20 {
        ((56 + d) as u8) as char
    } else if d < 22 {
        ((57 + d) as u8) as char
    } else if d < 27 {
        ((58 + d) as u8) as char
    } else {
        ((59 + d) as u8) as char
    }
}

/// The digit of base 32 that a character stands for, in either case of a
/// letter; `None` for a character outside the alphabet.
pub open spec fn crockford_digit(c: char) -> Option<nat> {
    let code = c as int;
    let upper = if 97 <= code <= 122 {
        code - 32
    } else {
        code
    };
    if 48 <= code <= 57 {
        Some((code - 48) as nat)
    } else if 65 <= upper <= 72 {
        Some((upper - 55) as nat)
    } else if 74 <= upper <= 75 {
        Some((upper - 56) as nat)
    } else if 77 <= upper <= 78 {
        Some((upper - 57) as nat)
    } else if 80 <= upper <= 84 {
        Some((upper - 58) as nat)
    } else if 86 <= upper <= 90 {
        Some((upper - 59) as nat)
    } else {
        None
    }
}

/// True when every character of `s` belongs to the alphabet.
pub open spec fn all_crockford(s: Seq<char>) -> bool {
    forall|i: int| 0 <= i < s.len() ==> crockford_digit(#[trigger] s[i]) is Some
}

/// The numeral of `n` in exactly `width` digits of base 32; digits beyond
/// `width` are cut off.
pub open spec fn base32_text(n: nat, width: nat) -> Seq<char>
    decreases width,
{
    if width == 0 {
        Seq::empty()
    } else {
        base32_text(n / 32, (width - 1) as nat).push(crockford_char(n % 32))
    }
}

/// The number that a numeral of base 32 denotes, most significant digit
/// first. A character outside the alphabet counts as zero.
pub open spec fn base32_value(s: Seq<char>) -> nat
    decreases s.len(),
{
    if s.len() == 0 {
        0
    } else {
        base32_value(s.drop_last()) * 32 + match crockford_digit(s.last()) {
            Some(d) => d,
            None => 0,
        }
    }
}

/// Thirty-two to the power `width`.
pub open spec fn pow32(width: nat) -> nat
    decreases width,
{
    if width == 0 {
        1
    } else {
        32 * pow32((width - 1) as nat)
    }
}

/// The text of an identifier: its 26 digits of base 32.
pub open spec fn id_text(id: u128) -> Seq<char> {
    base32_text(id as nat, 26)
}

/// The identifier that a text stands for: a text of 26 characters of the
/// alphabet denotes a number, of which the low 128 bits are kept; any other
/// text stands for none.
pub open spec fn id_reading(text: Seq<char>) -> Option<u128> {
    if text.len() == 26 && all_crockford(text) {
        Some((base32_value(text) % (u128::MAX as nat + 1)) as u128)
    } else {
        None
    }
}

/// The identifier that the bytes of an id token stand for: the reading of
/// their text, where they are text.
pub open spec fn id_of_bytes(s: Seq<u8>) -> Option<u128> {
    if !valid_utf8(s) {
        None
    } else {
        id_reading(decode_utf8(s))
    }
}

/// A digit and its character stand for each other, and the character is a
/// decimal digit or a capital letter.
pub proof fn lemma_crockford_char(d: nat)
    requires
        d < 32,
    ensures
        crockford_digit(crockford_char(d)) == Some(d),
        48 <= crockford_char(d) as int <= 57 || 65 <= crockford_char(d) as int <= 90,
        '\0' <= crockford_char(d) <= '\u{7f}',
{
    let b = if d < 10 {
        (48 + d) as u8
    } else if d < 18 {
        (55 + d) as u8
    } else if d < 20 {
        (56 + d) as u8
    } else if d < 22 {
        (57 + d) as u8
    } else if d < 27 {
        (58 + d) as u8
    } else {
        (59 + d) as u8
    };
    assert(crockford_char(d) == b as char);
    assert((b as char) as int == b as int);
}

/// A numeral of base 32 has the width asked for, is made of characters of the
/// alphabet, and denotes the number whenever the number fits the width.
pub proof fn lemma_base32_text(n: nat, width: nat)
    ensures
        base32_text(n, width).len() == width,
        all_crockford(base32_text(n, width)),
        is_ascii_chars(base32_text(n, width)),
        forall|i: int|
            0 <= i < width ==> (48 <= (#[trigger] base32_text(n, width)[i]) as int <= 57 || 65
                <= base32_text(n, width)[i] as int <= 90),
        n < pow32(width) ==> base32_value(base32_text(n, width)) == n,
    decreases width,
{
    if width == 0 {
    } else {
        lemma_base32_text(n / 32, (width - 1) as nat);
        lemma_crockford_char(n % 32);
        let s = base32_text(n, width);
        assert(s.drop_last() =~= base32_text(n / 32, (width - 1) as nat));
    }
}

/// Reading the text of an identifier gives the identifier back; the text has
/// 26 characters, each a decimal digit or a capital letter.
pub proof fn lemma_id_text(id: u128)
    ensures
        id_reading(id_text(id)) == Some(id),
        id_text(id).len() == 26,
        is_ascii_chars(id_text(id)),
        forall|i: int|
            0 <= i < 26 ==> (48 <= (#[trigger] id_text(id)[i]) as int <= 57 || 65 <= id_text(
                id,
            )[i] as int <= 90),
{
    lemma_base32_text(id as nat, 26);
    lemma_pow32_26();
}

/// Twenty-six digits of base 32 hold 130 bits.
pub proof fn lemma_pow32_26()
    ensures
        pow32(26) == 4 * (u128::MAX as nat + 1),
{
    reveal_with_fuel(pow32, 14);
    assert(pow32(13) == 0x2_0000_0000_0000_0000);
    lemma_pow32_sum(13, 13);
    assert(0x2_0000_0000_0000_0000nat * 0x2_0000_0000_0000_0000nat == 4 * (u128::MAX as nat + 1))
        by (nonlinear_arith);
}

/// Powers of thirty-two multiply by adding their exponents.
pub proof fn lemma_pow32_sum(a: nat, b: nat)
    ensures
        pow32(a + b) == pow32(a) * pow32(b),
    decreases a,
{
    if a == 0 {
        assert(pow32(a + b) == pow32(a) * pow32(b)) by (nonlinear_arith)
            requires
                pow32(a) == 1,
                a + b == b,
        ;
    } else {
        lemma_pow32_sum((a - 1) as nat, b);
        assert(pow32(a + b) == 32 * pow32((a - 1 + b) as nat));
        assert(32 * (pow32((a - 1) as nat) * pow32(b)) == (32 * pow32((a - 1) as nat)) * pow32(b))
            by (nonlinear_arith);
    }
}

/// The error of `ulid` for a text that is no identifier.
#[verifier::external_type_specification]
#[verifier::external_body]
pub struct ExDecodeError(ulid::DecodeError);

/// Makes a new identifier. Wraps `ulid::Ulid::generate`, which draws on the clock
/// and on a random source: nothing is claimed of the number.
#[verifier::external_body]
pub(crate) fn fresh_id() -> (id: u128) {
    ulid::Ulid::generate().0
}

/// Writes an identifier as text. Wraps `ulid::Ulid::to_string`, which gives
/// the 26 digits of the number in Crockford's base 32, most significant first.
#[verifier::external_body]
pub(crate) fn id_to_text(id: u128) -> (text: String)
    ensures
        text@ == id_text(id),
{
    ulid::Ulid(id).to_string()
}

/// Reads a text as an identifier. Wraps `ulid::Ulid::from_string`, which
/// accepts exactly the texts of 26 characters of the alphabet, letters in
/// either case, and shifts five bits in for each, keeping the low 128.
#[verifier::external_body]
pub(crate) fn read_id(text: &str) -> (r: Result<u128, ulid::DecodeError>)
    ensures
        match r {
            Ok(id) => id_reading(text@) == Some(id),
            Err(_) => id_reading(text@) is None,
        },
{
    match ulid::Ulid::from_string(text) {
        Ok(id) => Ok(id.0),
        Err(error) => Err(error),
    }
}

/// Reads the bytes of an id token; `None` where they are no text or the text
/// is no identifier.
pub fn parse_id(token: &[u8]) -> (r: Option<u128>)
    ensures
        r == id_of_bytes(token@),
{
    match text_of_bytes(token) {
        None => None,
        Some(text) => {
            proof {
                lemma_decode_unique(text@, token@);
            }
            match read_id(text) {
                Ok(id) => Some(id),
                Err(_) => None,
            }
        },
    }
}

} // verus!
