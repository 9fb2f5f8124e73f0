//! Decimal numerals as ASCII bytes: the text of an entry's value and the
//! fixed-width fields of a date.

use vstd::prelude::*;

verus! {

/// The ASCII code of `0`.
pub const ZERO: u8 = 48;

/// The ASCII code of `-`.
pub const MINUS: u8 = 45;

/// The ASCII code of `+`.
pub const PLUS: u8 = 43;

/// True for the ASCII codes of `0` to `9`.
pub open spec fn is_digit(b: u8) -> bool {
    48 <= b <= 57
}

/// True when every byte of `s` is a decimal digit.
pub open spec fn all_digits(s: Seq<u8>) -> bool {
    forall|i: int| 0 <= i < s.len() ==> is_digit(#[trigger] s[i])
}

/// The number that a sequence of decimal digits denotes, most significant
/// digit first. The empty sequence denotes zero.
pub open spec fn digits_value(s: Seq<u8>) -> nat
    decreases s.len(),
{
    if s.len() == 0 {
        0
    } else {
        (digits_value(s.drop_last()) * 10 + (s.last() - 48)) as nat
    }
}

/// The shortest decimal numeral of `n`: no leading zero, and `0` for zero.
pub open spec fn digits_of(n: nat) -> Seq<u8>
    decreases n,
{
    if n < 10 {
        seq![(48 + n) as u8]
    } else {
        digits_of(n / 10).push((48 + n % 10) as u8)
    }
}

/// The decimal numeral of `n` in exactly `width` digits, zero padded; digits
/// beyond `width` are cut off.
pub open spec fn padded_digits(n: nat, width: nat) -> Seq<u8>
    decreases width,
{
    if width == 0 {
        Seq::empty()
    } else {
        padded_digits(n / 10, (width - 1) as nat).push((48 + n % 10) as u8)
    }
}

/// Ten to the power `width`.
pub open spec fn pow10(width: nat) -> nat
    decreases width,
{
    if width == 0 {
        1
    } else {
        10 * pow10((width - 1) as nat)
    }
}

/// The shortest numeral of a number is made of digits and denotes it.
pub proof fn lemma_digits_of(n: nat)
    ensures
        digits_of(n).len() >= 1,
        all_digits(digits_of(n)),
        digits_value(digits_of(n)) == n,
    decreases n,
{
    if n < 10 {
        let s = digits_of(n);
        assert(s.drop_last() =~= Seq::<u8>::empty());
        assert(digits_value(s.drop_last()) == 0);
    } else {
        lemma_digits_of(n / 10);
        let s = digits_of(n);
        assert(s.drop_last() =~= digits_of(n / 10));
    }
}

/// A padded numeral has the width asked for, is made of digits, and denotes
/// the number whenever the number fits the width.
pub proof fn lemma_padded_digits(n: nat, width: nat)
    ensures
        padded_digits(n, width).len() == width,
        all_digits(padded_digits(n, width)),
        n < pow10(width) ==> digits_value(padded_digits(n, width)) == n,
    decreases width,
{
    if width == 0 {
    } else {
        lemma_padded_digits(n / 10, (width - 1) as nat);
        let s = padded_digits(n, width);
        assert(s.drop_last() =~= padded_digits(n / 10, (width - 1) as nat));
    }
}

/// Appending a digit multiplies the value by ten and adds the digit.
pub proof fn lemma_digits_value_push(s: Seq<u8>, d: u8)
    ensures
        digits_value(s.push(d)) == (digits_value(s) * 10 + (d - 48)) as nat,
{
    assert(s.push(d).drop_last() =~= s);
}

/// The text of a signed value: a minus sign for a negative number, then the
/// shortest numeral of its magnitude.
pub open spec fn value_text(v: int) -> Seq<u8> {
    if v < 0 {
        seq![45u8] + digits_of((-v) as nat)
    } else {
        digits_of(v as nat)
    }
}

/// The integer that a signed decimal numeral denotes: an optional `+` or `-`,
/// then one digit or more. `None` for any other text.
pub open spec fn signed_value(s: Seq<u8>) -> Option<int> {
    if s.len() > 0 && (s[0] == 45 || s[0] == 43) {
        let d = s.drop_first();
        if d.len() > 0 && all_digits(d) {
            Some(
                if s[0] == 45 {
                    -(digits_value(d) as int)
                } else {
                    digits_value(d) as int
                },
            )
        } else {
            None
        }
    } else if s.len() > 0 && all_digits(s) {
        Some(digits_value(s) as int)
    } else {
        None
    }
}

/// The value that a token stands for: the integer it denotes, provided the
/// machine's signed word can hold it.
pub open spec fn value_of_text(s: Seq<u8>) -> Option<int> {
    match signed_value(s) {
        Some(v) => if isize::MIN <= v <= isize::MAX {
            Some(v)
        } else {
            None
        },
        None => None,
    }
}

/// Reading the text of a value gives the value back; the text is never
/// empty and holds only a sign and digits.
pub proof fn lemma_value_text(v: int)
    ensures
        signed_value(value_text(v)) == Some(v),
        value_text(v).len() >= 1,
        forall|i: int|
            0 <= i < value_text(v).len() ==> (is_digit(#[trigger] value_text(v)[i])
                || value_text(v)[i] == 45),
{
    let s = value_text(v);
    if v < 0 {
        let d = digits_of((-v) as nat);
        lemma_digits_of((-v) as nat);
        assert(s.drop_first() =~= d);
        assert(s[0] == 45);
    } else {
        lemma_digits_of(v as nat);
        assert(is_digit(s[0]));
    }
}

/// Appends the shortest numeral of `n` to `out`.
pub fn push_digits(out: &mut Vec<u8>, n: u64)
    ensures
        final(out)@ == old(out)@ + digits_of(n as nat),
    decreases n,
{
    if n >= 10 {
        push_digits(out, n / 10);
    }
    let d: u8 = (n % 10) as u8;
    out.push(48 + d);
    proof {
        if n >= 10 {
            assert(final(out)@ =~= old(out)@ + digits_of(n as nat));
        } else {
            assert(final(out)@ =~= old(out)@ + digits_of(n as nat));
        }
    }
}

/// Appends the numeral of `n` in exactly `width` digits to `out`.
pub fn push_padded_digits(out: &mut Vec<u8>, n: u32, width: u8)
    ensures
        final(out)@ == old(out)@ + padded_digits(n as nat, width as nat),
    decreases width,
{
    if width > 0 {
        push_padded_digits(out, n / 10, width - 1);
        let d: u8 = (n % 10) as u8;
        out.push(48 + d);
        proof {
            assert(final(out)@ =~= old(out)@ + padded_digits(n as nat, width as nat));
        }
    } else {
        proof {
            assert(final(out)@ =~= old(out)@ + padded_digits(n as nat, width as nat));
        }
    }
}

/// Appends the text of the signed value `v` to `out`.
pub fn push_value(out: &mut Vec<u8>, v: isize)
    ensures
        final(out)@ == old(out)@ + value_text(v as int),
{
    if v < 0 {
        out.push(45);
        let magnitude: u64 = (-(v as i128)) as u64;
        push_digits(out, magnitude);
        proof {
            assert(final(out)@ =~= old(out)@ + value_text(v as int));
        }
    } else {
        push_digits(out, v as u64);
    }
}

/// Reads `bytes[from..to]` as a run of digits. Returns `None` when the range
/// is empty or holds another byte; otherwise the number, or `limit + 1` in
/// place of any number above `limit`.
fn read_digits(bytes: &[u8], from: usize, to: usize, limit: u128) -> (r: Option<u128>)
    requires
        from <= to <= bytes.len(),
        limit < 0x1_0000_0000_0000_0000_0000,
    ensures
        ({
            let s = bytes@.subrange(from as int, to as int);
            match r {
                Some(n) => s.len() > 0 && all_digits(s) && if digits_value(s) <= limit {
                    n == digits_value(s)
                } else {
                    n == limit + 1
                },
                None => !(s.len() > 0 && all_digits(s)),
            }
        }),
{
    if from == to {
        return None;
    }
    let mut acc: u128 = 0;
    let mut i: usize = from;
    while i < to
        invariant
            from <= i <= to <= bytes.len(),
            limit < 0x1_0000_0000_0000_0000_0000,
            all_digits(bytes@.subrange(from as int, i as int)),
            acc <= limit + 1,
            if digits_value(bytes@.subrange(from as int, i as int)) <= limit {
                acc == digits_value(bytes@.subrange(from as int, i as int))
            } else {
                acc == limit + 1
            },
        decreases to - i,
    {
        let b: u8 = bytes[i];
        if b < 48 || b > 57 {
            proof {
                let s = bytes@.subrange(from as int, to as int);
                assert(s[i - from] == b);
            }
            return None;
        }
        proof {
            let p = bytes@.subrange(from as int, i as int);
            let q = bytes@.subrange(from as int, i + 1);
            assert(q =~= p.push(b));
            lemma_digits_value_push(p, b);
        }
        let next: u128 = acc * 10 + (b - 48) as u128;
        if next > limit {
            acc = limit + 1;
        } else {
            acc = next;
        }
        i += 1;
    }
    Some(acc)
}

/// Reads `bytes[from..to]` as the text of a value.
pub fn read_value(bytes: &[u8], from: usize, to: usize) -> (r: Option<isize>)
    requires
        from <= to <= bytes.len(),
    ensures
        match r {
            Some(v) => value_of_text(bytes@.subrange(from as int, to as int)) == Some(v as int),
            None => value_of_text(bytes@.subrange(from as int, to as int)) is None,
        },
{
    let ghost s = bytes@.subrange(from as int, to as int);
    if from == to {
        return None;
    }
    let first: u8 = bytes[from];
    proof {
        assert(s[0] == first);
    }
    let limit: u128 = isize::MAX as u128;
    if first == 45 || first == 43 {
        proof {
            assert(s.drop_first() =~= bytes@.subrange(from + 1, to as int));
        }
        match read_digits(bytes, from + 1, to, limit) {
            None => None,
            Some(n) => {
                if first == 45 {
                    // the magnitude of the least value is one above the greatest
                    if n <= limit {
                        Some((-(n as i128)) as isize)
                    } else {
                        if accept_least(bytes, from + 1, to) {
                            Some(isize::MIN)
                        } else {
                            None
                        }
                    }
                } else if n <= limit {
                    Some(n as isize)
                } else {
                    None
                }
            },
        }
    } else {
        match read_digits(bytes, from, to, limit) {
            None => None,
            Some(n) => if n <= limit {
                Some(n as isize)
            } else {
                None
            },
        }
    }
}

/// Tells whether the digits `bytes[from..to]` denote the magnitude of the
/// least signed word, which is one more than the greatest.
fn accept_least(bytes: &[u8], from: usize, to: usize) -> (r: bool)
    requires
        from < to <= bytes.len(),
        all_digits(bytes@.subrange(from as int, to as int)),
    ensures
        r == (digits_value(bytes@.subrange(from as int, to as int)) == isize::MAX + 1),
{
    let limit: u128 = isize::MAX as u128 + 1;
    match read_digits(bytes, from, to, limit) {
        Some(n) => n == limit,
        None => false,
    }
}

} // verus!
