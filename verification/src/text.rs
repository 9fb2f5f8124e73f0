//! Byte-level helpers shared by the journal grammar: searching for a
//! delimiter, comparing byte strings, and moving between bytes and text.

use vstd::prelude::*;
use vstd::utf8::*;

verus! {

/// The line feed byte.
pub const NEWLINE: u8 = 10;

/// The horizontal tab byte.
pub const TAB: u8 = 9;

/// The space byte.
pub const SPACE: u8 = 32;

/// Index of the first occurrence of `b` in `s`, or `s.len()` when `b` does not occur.
pub open spec fn position<T>(s: Seq<T>, b: T) -> int
    decreases s.len(),
{
    if s.len() == 0 || s[0] == b {
        0
    } else {
        1 + position(s.drop_first(), b)
    }
}

/// `position` is the only index that is preceded by no `b` and is either the
/// end of `s` or holds `b`.
pub proof fn lemma_position<T>(s: Seq<T>, b: T, r: int)
    requires
        0 <= r <= s.len(),
        forall|j: int| 0 <= j < r ==> s[j] != b,
        r == s.len() || s[r] == b,
    ensures
        position(s, b) == r,
    decreases s.len(),
{
    if s.len() == 0 || s[0] == b {
    } else {
        lemma_position(s.drop_first(), b, r - 1);
    }
}

/// Finds the first `b` in `bytes[from..]`; the result is an index into `bytes`.
pub fn find_byte(bytes: &[u8], from: usize, b: u8) -> (at: usize)
    requires
        from <= bytes.len(),
    ensures
        at == from + position(bytes@.subrange(from as int, bytes@.len() as int), b),
        from <= at <= bytes.len(),
{
    let mut i: usize = from;
    while i < bytes.len() && bytes[i] != b
        invariant
            from <= i <= bytes.len(),
            forall|j: int| from <= j < i ==> bytes@[j] != b,
        decreases bytes.len() - i,
    {
        i += 1;
    }
    proof {
        lemma_position(bytes@.subrange(from as int, bytes@.len() as int), b, i - from);
    }
    i
}

/// Index of the last occurrence of `b` in `s`, or `-1` when `b` does not occur.
pub open spec fn last_position<T>(s: Seq<T>, b: T) -> int
    decreases s.len(),
{
    if s.len() == 0 {
        -1
    } else if s.last() == b {
        s.len() - 1
    } else {
        last_position(s.drop_last(), b)
    }
}

/// `last_position` is the only index that holds `b` and is followed by no `b`;
/// it is `-1` exactly when `b` does not occur.
pub proof fn lemma_last_position<T>(s: Seq<T>, b: T, r: int)
    requires
        -1 <= r < s.len(),
        forall|j: int| r < j < s.len() ==> s[j] != b,
        r == -1 || s[r] == b,
    ensures
        last_position(s, b) == r,
    decreases s.len(),
{
    if s.len() == 0 {
    } else if s.last() == b {
    } else {
        lemma_last_position(s.drop_last(), b, r);
    }
}

/// Finds the last `b` in `bytes[from..to]`; `None` when there is none.
pub fn find_last_byte(bytes: &[u8], from: usize, to: usize, b: u8) -> (at: Option<usize>)
    requires
        from <= to <= bytes.len(),
    ensures
        match at {
            Some(i) => from <= i < to && i == from + last_position(
                bytes@.subrange(from as int, to as int),
                b,
            ),
            None => last_position(bytes@.subrange(from as int, to as int), b) == -1,
        },
{
    let mut i: usize = to;
    while i > from && bytes[i - 1] != b
        invariant
            from <= i <= to <= bytes.len(),
            forall|j: int| i <= j < to ==> bytes@[j] != b,
        decreases i,
    {
        i -= 1;
    }
    proof {
        lemma_last_position(bytes@.subrange(from as int, to as int), b, i - from - 1);
    }
    if i > from {
        Some(i - 1)
    } else {
        None
    }
}

/// True when `b` occurs nowhere in `s`.
pub open spec fn free_of(s: Seq<u8>, b: u8) -> bool {
    forall|i: int| 0 <= i < s.len() ==> s[i] != b
}

/// Copies `bytes[from..to]` into a vector of its own.
pub fn copy_range(bytes: &[u8], from: usize, to: usize) -> (out: Vec<u8>)
    requires
        from <= to <= bytes.len(),
    ensures
        out@ == bytes@.subrange(from as int, to as int),
{
    let mut out: Vec<u8> = Vec::new();
    let mut i: usize = from;
    while i < to
        invariant
            from <= i <= to <= bytes.len(),
            out@ == bytes@.subrange(from as int, i as int),
        decreases to - i,
    {
        out.push(bytes[i]);
        proof {
            assert(out@ =~= bytes@.subrange(from as int, i + 1));
        }
        i += 1;
    }
    out
}

/// Appends every byte of `more` to `out`.
pub fn append_bytes(out: &mut Vec<u8>, more: &[u8])
    ensures
        final(out)@ == old(out)@ + more@,
{
    let mut i: usize = 0;
    while i < more.len()
        invariant
            i <= more.len(),
            out@ == old(out)@ + more@.subrange(0, i as int),
        decreases more.len() - i,
    {
        out.push(more[i]);
        proof {
            assert(out@ =~= old(out)@ + more@.subrange(0, i + 1));
        }
        i += 1;
    }
    proof {
        assert(more@.subrange(0, more@.len() as int) =~= more@);
    }
}

/// Reads a byte string as text. Wraps `std::str::from_utf8`: the call succeeds
/// exactly on well-formed UTF-8, and the text it returns encodes to the bytes
/// that were given.
#[verifier::external_body]
pub(crate) fn text_of_bytes(bytes: &[u8]) -> (text: Option<&str>)
    ensures
        text is Some <==> valid_utf8(bytes@),
        text is Some ==> encode_utf8(text.unwrap()@) == bytes@,
{
    match std::str::from_utf8(bytes) {
        Ok(text) => Some(text),
        Err(_) => None,
    }
}

/// The text that well-formed UTF-8 bytes decode to is the only text that
/// encodes to them.
pub proof fn lemma_decode_unique(chars: Seq<char>, bytes: Seq<u8>)
    requires
        encode_utf8(chars) == bytes,
    ensures
        valid_utf8(bytes),
        decode_utf8(bytes) == chars,
{
    encode_utf8_valid_utf8(chars);
    encode_utf8_decode_utf8(chars);
}

/// The lexicographic order of byte strings: `a` comes before `b` or equals it.
pub open spec fn lex_le(a: Seq<u8>, b: Seq<u8>) -> bool
    decreases a.len(),
{
    if a.len() == 0 {
        true
    } else if b.len() == 0 {
        false
    } else if a[0] != b[0] {
        a[0] < b[0]
    } else {
        lex_le(a.drop_first(), b.drop_first())
    }
}

/// Of two byte strings one comes before the other or equals it.
pub proof fn lemma_lex_total(a: Seq<u8>, b: Seq<u8>)
    ensures
        lex_le(a, b) || lex_le(b, a),
    decreases a.len(),
{
    if a.len() > 0 && b.len() > 0 && a[0] == b[0] {
        lemma_lex_total(a.drop_first(), b.drop_first());
    }
}

/// The order is transitive.
pub proof fn lemma_lex_transitive(a: Seq<u8>, b: Seq<u8>, c: Seq<u8>)
    requires
        lex_le(a, b),
        lex_le(b, c),
    ensures
        lex_le(a, c),
    decreases a.len(),
{
    if a.len() > 0 && b.len() > 0 && c.len() > 0 && a[0] == b[0] && b[0] == c[0] {
        lemma_lex_transitive(a.drop_first(), b.drop_first(), c.drop_first());
    }
}

/// Two byte strings that come before each other are equal.
pub proof fn lemma_lex_antisymmetric(a: Seq<u8>, b: Seq<u8>)
    requires
        lex_le(a, b),
        lex_le(b, a),
    ensures
        a == b,
    decreases a.len(),
{
    if a.len() == 0 || b.len() == 0 {
        assert(a =~= b);
    } else {
        lemma_lex_antisymmetric(a.drop_first(), b.drop_first());
        assert(a =~= seq![a[0]] + a.drop_first());
        assert(b =~= seq![b[0]] + b.drop_first());
    }
}

/// Every byte string comes before itself or equals it.
pub proof fn lemma_lex_reflexive(a: Seq<u8>)
    ensures
        lex_le(a, a),
    decreases a.len(),
{
    if a.len() > 0 {
        lemma_lex_reflexive(a.drop_first());
    }
}

/// The order seen from a common prefix: two strings that agree on their first
/// `n` bytes compare as what follows those bytes.
pub proof fn lemma_lex_skip(a: Seq<u8>, b: Seq<u8>, n: int)
    requires
        0 <= n <= a.len(),
        n <= b.len(),
        a.subrange(0, n) == b.subrange(0, n),
    ensures
        lex_le(a, b) == lex_le(a.subrange(n, a.len() as int), b.subrange(n, b.len() as int)),
    decreases n,
{
    if n == 0 {
        assert(a.subrange(0, a.len() as int) =~= a);
        assert(b.subrange(0, b.len() as int) =~= b);
    } else {
        assert(a[0] == a.subrange(0, n)[0]);
        assert(b[0] == b.subrange(0, n)[0]);
        let a1 = a.drop_first();
        let b1 = b.drop_first();
        assert(a1.subrange(0, n - 1) =~= a.subrange(0, n).drop_first());
        assert(b1.subrange(0, n - 1) =~= b.subrange(0, n).drop_first());
        lemma_lex_skip(a1, b1, n - 1);
        assert(a1.subrange(n - 1, a1.len() as int) =~= a.subrange(n, a.len() as int));
        assert(b1.subrange(n - 1, b1.len() as int) =~= b.subrange(n, b.len() as int));
    }
}

/// Tells whether `a` comes before `b` or equals it in the lexicographic order.
pub fn bytes_le(a: &[u8], b: &[u8]) -> (r: bool)
    ensures
        r == lex_le(a@, b@),
{
    let mut i: usize = 0;
    while i < a.len() && i < b.len() && a[i] == b[i]
        invariant
            i <= a.len(),
            i <= b.len(),
            a@.subrange(0, i as int) == b@.subrange(0, i as int),
        decreases a.len() - i,
    {
        proof {
            assert(a@.subrange(0, i + 1) =~= a@.subrange(0, i as int).push(a@[i as int]));
            assert(b@.subrange(0, i + 1) =~= b@.subrange(0, i as int).push(b@[i as int]));
        }
        i += 1;
    }
    proof {
        lemma_lex_skip(a@, b@, i as int);
        let ra = a@.subrange(i as int, a@.len() as int);
        let rb = b@.subrange(i as int, b@.len() as int);
        if i < a.len() && i < b.len() {
            assert(ra[0] == a@[i as int]);
            assert(rb[0] == b@[i as int]);
        }
    }
    if i == a.len() {
        true
    } else if i == b.len() {
        false
    } else {
        a[i] < b[i]
    }
}

/// True when every byte of `s` is an ASCII code.
pub open spec fn all_ascii(s: Seq<u8>) -> bool {
    forall|i: int| 0 <= i < s.len() ==> #[trigger] s[i] < 128
}

/// The characters whose codes are the bytes of `s`.
pub open spec fn ascii_text(s: Seq<u8>) -> Seq<char> {
    Seq::new(s.len(), |i: int| s[i] as char)
}

/// ASCII bytes are well-formed UTF-8, and they are the encoding of the
/// characters with their codes.
pub proof fn lemma_ascii_bytes(s: Seq<u8>)
    requires
        all_ascii(s),
    ensures
        valid_utf8(s),
        decode_utf8(s) == ascii_text(s),
        encode_utf8(ascii_text(s)) == s,
{
    let chars = ascii_text(s);
    assert(is_ascii_chars(chars)) by {
        assert forall|i: int| 0 <= i < chars.len() implies '\0' <= #[trigger] chars[i]
            <= '\u{7f}' by {
            assert(s[i] < 128);
        }
    }
    is_ascii_chars_encode_utf8(chars);
    assert(encode_utf8(chars) =~= s) by {
        assert forall|i: int| 0 <= i < s.len() implies encode_utf8(chars)[i] == s[i] by {
            assert(chars[i] as u8 == encode_utf8(chars)[i]);
            assert(s[i] < 128);
        }
    }
    lemma_decode_unique(chars, s);
}

/// The encoding of ASCII characters is the bytes with their codes.
pub proof fn lemma_ascii_chars(chars: Seq<char>)
    requires
        is_ascii_chars(chars),
    ensures
        encode_utf8(chars).len() == chars.len(),
        forall|i: int| 0 <= i < chars.len() ==> (#[trigger] encode_utf8(chars)[i]) as int == chars[i] as int,
{
    is_ascii_chars_encode_utf8(chars);
    is_ascii_chars_nat_bound(chars);
    assert forall|i: int| 0 <= i < chars.len() implies (#[trigger] encode_utf8(chars)[i]) as int
        == chars[i] as int by {
        assert(chars[i] as u8 == encode_utf8(chars)[i]);
        assert((chars[i] as nat) < 128);
    }
}

/// The part `bytes[from..to]` of a byte string.
pub fn part(bytes: &[u8], from: usize, to: usize) -> (piece: &[u8])
    requires
        from <= to <= bytes.len(),
    ensures
        piece@ == bytes@.subrange(from as int, to as int),
{
    &bytes[from..to]
}

} // verus!
