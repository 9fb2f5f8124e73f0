//! Entries: one account and one signed value, their line in the journal and
//! their canonical order.

use crate::decimal::{is_digit, lemma_value_text, push_value, read_value, value_of_text, value_text};
use crate::error::{Error, Fault};
use crate::text::{
    append_bytes, bytes_le, find_last_byte, free_of, last_position, lemma_decode_unique,
    lemma_last_position, lemma_lex_total, lemma_lex_transitive, lex_le,
    text_of_bytes,
};
use vstd::prelude::*;
use vstd::utf8::{decode_utf8, encode_utf8, valid_utf8};

verus! {

/// The mathematical value of an entry.
pub struct EntryView {
    pub account: Seq<char>,
    pub value: int,
}

/// One account and the value moved to it, in minor units of the currency.
#[derive(Clone, Debug, Default, PartialEq, Eq)]
pub struct Entry {
    account: String,
    value: isize,
}

impl View for Entry {
    type V = EntryView;

    closed spec fn view(&self) -> EntryView {
        EntryView { account: self.account@, value: self.value as int }
    }
}

/// The values of a sequence of entries.
pub open spec fn entry_views(entries: Seq<Entry>) -> Seq<EntryView> {
    Seq::new(entries.len(), |i: int| entries[i]@)
}

/// The sum of the values of a sequence of entries.
pub open spec fn entries_total(entries: Seq<EntryView>) -> int
    decreases entries.len(),
{
    if entries.len() == 0 {
        0
    } else {
        entries_total(entries.drop_last()) + entries.last().value
    }
}

/// The line of an entry in the journal: a tab, the account, a space and the
/// value.
pub open spec fn entry_line(entry: EntryView) -> Seq<u8> {
    seq![9u8] + encode_utf8(entry.account) + seq![32u8] + value_text(entry.value)
}

/// The entry that a line of the journal stands for. The line starts with a
/// tab; what follows its last space is the value and what precedes that space
/// is the account. A line without a space is all value, with an empty
/// account.
pub open spec fn parse_entry_line(line: Seq<u8>) -> Result<EntryView, Fault> {
    if line.len() == 0 || line[0] != 9 {
        Err(Fault::CorruptedLedgerFile)
    } else {
        let body = line.drop_first();
        let space = last_position(body, 32);
        let account = if space < 0 {
            Seq::<u8>::empty()
        } else {
            body.subrange(0, space)
        };
        let token = body.subrange(space + 1, body.len() as int);
        match value_of_text(token) {
            None => Err(Fault::BlankEntryValue),
            Some(value) => if valid_utf8(account) {
                Ok(EntryView { account: decode_utf8(account), value })
            } else {
                Err(Fault::CorruptedLedgerFile)
            },
        }
    }
}

/// The account of `a` comes before that of `b`, or they are the same, in the
/// lexicographic order of their bytes.
pub open spec fn account_le(a: EntryView, b: EntryView) -> bool {
    lex_le(encode_utf8(a.account), encode_utf8(b.account))
}

/// True when the accounts never step back from one entry to a later one.
pub open spec fn entries_ordered(entries: Seq<EntryView>) -> bool {
    forall|i: int, j: int| 0 <= i < j < entries.len() ==> account_le(entries[i], entries[j])
}

/// `entry` put into `entries` behind the last entry whose account does not
/// come after its own.
pub open spec fn insert_entry(entries: Seq<EntryView>, entry: EntryView) -> Seq<EntryView>
    decreases entries.len(),
{
    if entries.len() == 0 {
        seq![entry]
    } else if account_le(entries.last(), entry) {
        entries.push(entry)
    } else {
        insert_entry(entries.drop_last(), entry).push(entries.last())
    }
}

/// The entries in the order of their accounts; entries of one account keep
/// the order they came in.
pub open spec fn sort_entries(entries: Seq<EntryView>) -> Seq<EntryView>
    decreases entries.len(),
{
    if entries.len() == 0 {
        Seq::empty()
    } else {
        insert_entry(sort_entries(entries.drop_last()), entries.last())
    }
}

/// Where `insert_entry` puts an entry: at the index `k` behind which every
/// account comes after its own, and before which the nearest does not.
pub proof fn lemma_insert_at(entries: Seq<EntryView>, entry: EntryView, k: int)
    requires
        0 <= k <= entries.len(),
        forall|j: int| k <= j < entries.len() ==> !account_le(entries[j], entry),
        k == 0 || account_le(entries[k - 1], entry),
    ensures
        insert_entry(entries, entry) == entries.insert(k, entry),
    decreases entries.len(),
{
    if entries.len() == 0 {
        assert(seq![entry] =~= entries.insert(k, entry));
    } else if account_le(entries.last(), entry) {
        assert(k == entries.len());
        assert(entries.push(entry) =~= entries.insert(k, entry));
    } else {
        lemma_insert_at(entries.drop_last(), entry, k);
        assert(entries.drop_last().insert(k, entry).push(entries.last()) =~= entries.insert(
            k,
            entry,
        ));
    }
}

/// Inserting keeps every entry, adds the new one, and keeps the order.
pub proof fn lemma_insert_entry(entries: Seq<EntryView>, entry: EntryView)
    ensures
        insert_entry(entries, entry).len() == entries.len() + 1,
        insert_entry(entries, entry).to_multiset() == entries.to_multiset().insert(entry),
        entries_total(insert_entry(entries, entry)) == entries_total(entries) + entry.value,
        entries_ordered(entries) ==> entries_ordered(insert_entry(entries, entry)),
    decreases entries.len(),
{
    broadcast use vstd::seq_lib::group_to_multiset_ensures;

    let out = insert_entry(entries, entry);
    if entries.len() == 0 {
        assert(out.drop_last() =~= Seq::<EntryView>::empty());
        assert(entries =~= Seq::<EntryView>::empty());
        assert(out =~= Seq::<EntryView>::empty().push(entry));
    } else if account_le(entries.last(), entry) {
        assert(out.drop_last() =~= entries);
        if entries_ordered(entries) {
            assert forall|i: int, j: int| 0 <= i < j < out.len() implies account_le(
                out[i],
                out[j],
            ) by {
                if j == entries.len() {
                    if i < entries.len() - 1 {
                        assert(account_le(entries[i], entries[entries.len() - 1]));
                        lemma_lex_transitive(
                            encode_utf8(entries[i].account),
                            encode_utf8(entries.last().account),
                            encode_utf8(entry.account),
                        );
                    }
                }
            }
        }
    } else {
        let head = entries.drop_last();
        let last = entries.last();
        lemma_insert_entry(head, entry);
        let inner = insert_entry(head, entry);
        assert(out.drop_last() =~= inner);
        assert(entries =~= head.push(last));
        assert(out.to_multiset() =~= entries.to_multiset().insert(entry));
        if entries_ordered(entries) {
            assert(entries_ordered(head)) by {
                assert forall|i: int, j: int| 0 <= i < j < head.len() implies account_le(
                    head[i],
                    head[j],
                ) by {
                    assert(head[i] == entries[i] && head[j] == entries[j]);
                }
            }
            lemma_lex_total(encode_utf8(last.account), encode_utf8(entry.account));
            // every entry of `inner` is `entry` or an entry of `head`
            assert forall|i: int| 0 <= i < inner.len() implies account_le(inner[i], last) by {
                assert(inner.to_multiset().count(inner[i]) > 0);
                if inner[i] == entry {
                } else {
                    assert(head.to_multiset().count(inner[i]) > 0);
                    let k = choose|k: int| 0 <= k < head.len() && head[k] == inner[i];
                    assert(entries[k] == head[k]);
                    assert(account_le(entries[k], entries[entries.len() - 1]));
                }
            }
            assert forall|i: int, j: int| 0 <= i < j < out.len() implies account_le(
                out[i],
                out[j],
            ) by {
                if j < inner.len() {
                    assert(out[i] == inner[i] && out[j] == inner[j]);
                } else {
                    assert(out[i] == inner[i]);
                }
            }
        }
    }
}

/// Sorting keeps every entry and their total, and puts them in order.
pub proof fn lemma_sort_entries(entries: Seq<EntryView>)
    ensures
        sort_entries(entries).len() == entries.len(),
        sort_entries(entries).to_multiset() == entries.to_multiset(),
        entries_total(sort_entries(entries)) == entries_total(entries),
        entries_ordered(sort_entries(entries)),
    decreases entries.len(),
{
    broadcast use vstd::seq_lib::group_to_multiset_ensures;

    if entries.len() == 0 {
    } else {
        lemma_sort_entries(entries.drop_last());
        lemma_insert_entry(sort_entries(entries.drop_last()), entries.last());
        assert(entries =~= entries.drop_last().push(entries.last()));
    }
}

/// Entries that are in order are left as they are.
pub proof fn lemma_sort_ordered(entries: Seq<EntryView>)
    requires
        entries_ordered(entries),
    ensures
        sort_entries(entries) == entries,
    decreases entries.len(),
{
    if entries.len() == 0 {
        assert(entries =~= Seq::<EntryView>::empty());
    } else {
        let head = entries.drop_last();
        assert(entries_ordered(head)) by {
            assert forall|i: int, j: int| 0 <= i < j < head.len() implies account_le(
                head[i],
                head[j],
            ) by {
                assert(head[i] == entries[i] && head[j] == entries[j]);
            }
        }
        lemma_sort_ordered(head);
        if head.len() == 0 {
            assert(insert_entry(head, entries.last()) =~= entries);
        } else {
            assert(head.last() == entries[entries.len() - 2]);
            assert(account_le(entries[entries.len() - 2], entries[entries.len() - 1]));
            assert(head.push(entries.last()) =~= entries);
        }
    }
}

/// The line of an entry reads back as the entry. It starts with a tab, and
/// holds a line feed only where the account does.
pub proof fn lemma_entry_line(entry: EntryView)
    requires
        isize::MIN <= entry.value <= isize::MAX,
    ensures
        parse_entry_line(entry_line(entry)) == Ok::<EntryView, Fault>(entry),
        entry_line(entry).len() >= 3,
        entry_line(entry)[0] == 9,
        entry_line(entry).last() != 10,
        free_of(encode_utf8(entry.account), 10) ==> free_of(entry_line(entry), 10),
        valid_utf8(entry_line(entry)),
{
    let name = encode_utf8(entry.account);
    let token = value_text(entry.value);
    let line = entry_line(entry);
    let body = line.drop_first();
    lemma_value_text(entry.value);
    assert(body =~= name + seq![32u8] + token);
    assert forall|j: int| name.len() < j < body.len() implies body[j] != 32 by {
        assert(body[j] == token[j - name.len() - 1]);
    }
    lemma_last_position(body, 32, name.len() as int);
    assert(body.subrange(0, name.len() as int) =~= name);
    assert(body.subrange(name.len() as int + 1, body.len() as int) =~= token);
    lemma_decode_unique(entry.account, name);
    assert(line.last() == token.last());
    if free_of(name, 10) {
        assert forall|i: int| 0 <= i < line.len() implies line[i] != 10 by {
            if i == 0 {
            } else if i <= name.len() {
                assert(line[i] == name[i - 1]);
            } else if i == name.len() + 1 {
            } else {
                assert(line[i] == token[i - name.len() - 2]);
            }
        }
    }
    assert(valid_utf8(line)) by {
        crate::text::lemma_ascii_bytes(seq![9u8]);
        crate::text::lemma_ascii_bytes(seq![32u8]);
        assert(crate::text::all_ascii(token)) by {
            assert forall|i: int| 0 <= i < token.len() implies #[trigger] token[i] < 128 by {
                assert(is_digit(token[i]) || token[i] == 45);
            }
        }
        crate::text::lemma_ascii_bytes(token);
        vstd::utf8::valid_utf8_concat(seq![9u8], name);
        vstd::utf8::valid_utf8_concat(seq![9u8] + name, seq![32u8]);
        vstd::utf8::valid_utf8_concat(seq![9u8] + name + seq![32u8], token);
    }
}

impl Entry {
    /// An entry of `value` for `account`.
    pub fn new(account: &str, value: isize) -> (entry: Self)
        ensures
            entry@ == (EntryView { account: account@, value: value as int }),
    {
        Self { account: account.to_owned(), value }
    }

    /// The entry of a pair of an account and a value that may be left out:
    /// a value left out counts as zero.
    pub fn from_pair(pair: &(String, Option<isize>)) -> (entry: Self)
        ensures
            entry@ == (EntryView {
                account: pair.0@,
                value: match pair.1 {
                    Some(value) => value as int,
                    None => 0,
                },
            }),
    {
        let value: isize = match pair.1 {
            Some(value) => value,
            None => 0,
        };
        Self { account: pair.0.clone(), value }
    }

    pub fn account(&self) -> (account: &String)
        ensures
            account@ == self@.account,
    {
        &self.account
    }

    pub fn value(&self) -> (value: isize)
        ensures
            value == self@.value,
    {
        self.value
    }

    /// An entry equal to this one.
    pub fn duplicate(&self) -> (entry: Self)
        ensures
            entry@ == self@,
    {
        Self { account: self.account.clone(), value: self.value }
    }

    /// Tells whether the account of this entry comes before that of `other`,
    /// or is the same.
    pub fn precedes(&self, other: &Entry) -> (r: bool)
        ensures
            r == account_le(self@, other@),
    {
        bytes_le(self.account.as_str().as_bytes(), other.account.as_str().as_bytes())
    }

    /// Appends the line of this entry to `out`.
    pub fn write_to(&self, out: &mut Vec<u8>)
        ensures
            final(out)@ == old(out)@ + entry_line(self@),
    {
        out.push(9);
        append_bytes(out, self.account.as_str().as_bytes());
        out.push(32);
        push_value(out, self.value);
        proof {
            assert(final(out)@ =~= old(out)@ + entry_line(self@));
        }
    }

    /// Reads the line `bytes[from..to]` of the journal as an entry.
    pub fn parse(bytes: &[u8], from: usize, to: usize) -> (r: Result<Entry, Error>)
        requires
            from <= to <= bytes.len(),
        ensures
            match r {
                Ok(entry) => parse_entry_line(bytes@.subrange(from as int, to as int)) == Ok::<
                    EntryView,
                    Fault,
                >(entry@),
                Err(error) => parse_entry_line(bytes@.subrange(from as int, to as int)) == Err::<
                    EntryView,
                    Fault,
                >(error@),
            },
    {
        let ghost line = bytes@.subrange(from as int, to as int);
        if from == to || bytes[from] != 9 {
            proof {
                if from < to {
                    assert(line[0] == bytes@[from as int]);
                }
            }
            return Err(Error::corrupted_ledger_file());
        }
        let start: usize = from + 1;
        let ghost body = line.drop_first();
        proof {
            assert(line[0] == bytes@[from as int]);
            assert(body =~= bytes@.subrange(start as int, to as int));
        }
        let space = find_last_byte(bytes, start, to, 32);
        let (name_end, token_start): (usize, usize) = match space {
            Some(at) => (at, at + 1),
            None => (start, start),
        };
        proof {
            let sp = last_position(body, 32);
            assert(bytes@.subrange(token_start as int, to as int) =~= body.subrange(
                sp + 1,
                body.len() as int,
            ));
            if sp >= 0 {
                assert(bytes@.subrange(start as int, name_end as int) =~= body.subrange(0, sp));
            } else {
                assert(bytes@.subrange(start as int, name_end as int) =~= Seq::<u8>::empty());
            }
        }
        let value = match read_value(bytes, token_start, to) {
            Some(value) => value,
            None => {
                return Err(Error::blank_entry_value());
            },
        };
        let name = crate::text::copy_range(bytes, start, name_end);
        match text_of_bytes(name.as_slice()) {
            Some(account) => {
                proof {
                    lemma_decode_unique(account@, name@);
                }
                Ok(Entry { account: account.to_owned(), value })
            },
            None => Err(Error::corrupted_ledger_file()),
        }
    }
}

/// Puts entries in the order of their accounts; entries of one account keep
/// the order they came in.
pub fn sort_entry_list(entries: &[Entry]) -> (sorted: Vec<Entry>)
    ensures
        entry_views(sorted@) == sort_entries(entry_views(entries@)),
{
    let mut sorted: Vec<Entry> = Vec::new();
    let mut i: usize = 0;
    proof {
        assert(entry_views(entries@).subrange(0, 0) =~= Seq::<EntryView>::empty());
        assert(entry_views(sorted@) =~= Seq::<EntryView>::empty());
    }
    while i < entries.len()
        invariant
            i <= entries.len(),
            entry_views(sorted@) == sort_entries(entry_views(entries@).subrange(0, i as int)),
        decreases entries.len() - i,
    {
        let entry = entries[i].duplicate();
        let mut k: usize = sorted.len();
        while k > 0 && !sorted[k - 1].precedes(&entry)
            invariant
                k <= sorted.len(),
                forall|j: int| k <= j < sorted.len() ==> !account_le(sorted@[j]@, entry@),
            decreases k,
        {
            k -= 1;
        }
        proof {
            let before = entry_views(sorted@);
            let prefix = entry_views(entries@).subrange(0, i as int);
            let next = entry_views(entries@).subrange(0, i + 1);
            lemma_insert_at(before, entry@, k as int);
            assert(next.drop_last() =~= prefix);
            assert(next.last() == entry@);
        }
        let ghost before = entry_views(sorted@);
        sorted.insert(k, entry);
        proof {
            assert(entry_views(sorted@) =~= before.insert(k as int, entry@));
        }
        i += 1;
    }
    proof {
        assert(entry_views(entries@).subrange(0, i as int) =~= entry_views(entries@));
    }
    sorted
}

} // verus!
