//! Entries as they are typed on the command line: an account, and its value
//! behind an equals sign where it has one.

use crate::decimal::{read_value, value_of_text};
use crate::error::{Error, Fault};
use crate::text::{last_position, lemma_last_position, lemma_position, position};
use itertools::Itertools;
use vstd::prelude::*;
use vstd::string::StrSliceExecFns;
use vstd::utf8::encode_utf8;

verus! {

/// The characters of `text` that are no full stop, in their order.
pub open spec fn without_dots(text: Seq<char>) -> Seq<char>
    decreases text.len(),
{
    if text.len() == 0 {
        Seq::empty()
    } else if text.last() == '.' {
        without_dots(text.drop_last())
    } else {
        without_dots(text.drop_last()).push(text.last())
    }
}

/// What a typed entry stands for. Without an equals sign it is an account
/// with no value. Otherwise the full stops are taken out; what precedes the
/// first equals sign is the account, and what follows the last one is the
/// value, which must be a signed integer.
pub open spec fn typed_entry(text: Seq<char>) -> Result<(Seq<char>, Option<int>), Fault> {
    let plain = without_dots(text);
    let first = position(plain, '=');
    let last = last_position(plain, '=');
    if !text.contains('=') {
        Ok((text, None))
    } else {
        match value_of_text(encode_utf8(plain.subrange(last + 1, plain.len() as int))) {
            None => Err(Fault::InvalidEntryFormat(text)),
            Some(value) => Ok((plain.subrange(0, first), Some(value))),
        }
    }
}

/// Taking the full stops out keeps every other character: the result holds
/// an equals sign exactly where the text does.
pub proof fn lemma_without_dots(text: Seq<char>)
    ensures
        without_dots(text).contains('=') == text.contains('='),
        without_dots(text).len() <= text.len(),
    decreases text.len(),
{
    if text.len() > 0 {
        let head = text.drop_last();
        let plain = without_dots(text);
        let inner = without_dots(head);
        lemma_without_dots(head);
        if text.contains('=') {
            let k = choose|k: int| 0 <= k < text.len() && text[k] == '=';
            if k < head.len() {
                assert(head[k] == '=');
                assert(head.contains('='));
                assert(inner.contains('='));
                let m = choose|m: int| 0 <= m < inner.len() && inner[m] == '=';
                assert(plain[m] == '=');
            } else {
                assert(plain[plain.len() - 1] == '=');
            }
        }
        if plain.contains('=') {
            let m = choose|m: int| 0 <= m < plain.len() && plain[m] == '=';
            if m < inner.len() {
                assert(inner[m] == '=');
                assert(inner.contains('='));
                assert(head.contains('='));
                let k = choose|k: int| 0 <= k < head.len() && head[k] == '=';
                assert(text[k] == '=');
            } else {
                assert(text[text.len() - 1] == '=');
            }
        }
    }
}

/// Takes the full stops out of a text. Wraps `str::split` on a full stop and
/// `itertools::Itertools::join` with an empty separator, which puts the
/// pieces between the full stops back together.
#[verifier::external_body]
pub(crate) fn strip_dots(text: &str) -> (plain: String)
    ensures
        plain@ == without_dots(text@),
{
    text.split(".").join("")
}

/// Reads an entry as it is typed on the command line.
pub fn parse_entries(s: &str) -> (r: Result<(String, Option<isize>), Error>)
    ensures
        match r {
            Ok((account, value)) => typed_entry(s@) == Ok::<(Seq<char>, Option<int>), Fault>(
                (
                    account@,
                    match value {
                        Some(v) => Some(v as int),
                        None => None,
                    },
                ),
            ),
            Err(error) => typed_entry(s@) == Err::<(Seq<char>, Option<int>), Fault>(error@),
        },
{
    let plain = strip_dots(s);
    let text = plain.as_str();
    let count = text.unicode_len();
    proof {
        lemma_without_dots(s@);
    }
    let mut first: usize = 0;
    while first < count && text.get_char(first) != '='
        invariant
            first <= count,
            count == text@.len(),
            forall|j: int| 0 <= j < first ==> text@[j] != '=',
        decreases count - first,
    {
        first += 1;
    }
    proof {
        lemma_position(text@, '=', first as int);
    }
    if first == count {
        proof {
            assert(!text@.contains('='));
        }
        return Ok((s.to_owned(), None));
    }
    proof {
        assert(text@[first as int] == '=');
        assert(text@.contains('='));
    }
    let mut last: usize = count - 1;
    while text.get_char(last) != '='
        invariant
            first <= last < count,
            count == text@.len(),
            text@[first as int] == '=',
            forall|j: int| last < j < count ==> text@[j] != '=',
        decreases last,
    {
        last -= 1;
    }
    proof {
        lemma_last_position(text@, '=', last as int);
    }
    let token = text.substring_char(last + 1, count);
    let bytes = token.as_bytes();
    proof {
        assert(bytes@.subrange(0, bytes@.len() as int) =~= bytes@);
    }
    match read_value(bytes, 0, bytes.len()) {
        None => Err(Error::invalid_entry_format(s)),
        Some(value) => Ok((text.substring_char(0, first).to_owned(), Some(value))),
    }
}

} // verus!
