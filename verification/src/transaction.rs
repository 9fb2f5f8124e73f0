//! Transactions: a dated, identified group of entries, and its record in
//! the journal.

use crate::balance::{balanced_entries, pair_views, validate_and_normalize_entries};
use crate::date::{date_of_bytes, date_text, lemma_date_text, Date, Day};
use crate::decimal::is_digit;
use crate::entry::{
    entries_ordered, entries_total, entry_line, entry_views, lemma_entry_line,
    lemma_sort_ordered, parse_entry_line, sort_entries, sort_entry_list, Entry, EntryView,
};
use crate::error::{date_field, id_field, Error, Fault};
use crate::id::{fresh_id, id_of_bytes, id_text, id_to_text, lemma_id_text, parse_id};
use crate::text::{
    all_ascii, append_bytes, find_byte, free_of, lemma_ascii_bytes, lemma_ascii_chars,
    lemma_decode_unique, lemma_position, part, position, text_of_bytes,
};
use vstd::prelude::*;
use vstd::utf8::{decode_utf8, encode_utf8, valid_utf8, valid_utf8_concat};

verus! {

/// The mathematical value of a transaction.
pub struct TransactionView {
    pub date: Day,
    pub id: u128,
    pub has_cleared: bool,
    pub description: Seq<char>,
    pub entries: Seq<EntryView>,
}

/// A dated group of entries with an identifier of its own.
#[derive(Debug, PartialEq, Eq)]
pub struct Transaction {
    date: Date,
    id: u128,
    has_cleared: bool,
    description: String,
    entries: Vec<Entry>,
}

impl View for Transaction {
    type V = TransactionView;

    closed spec fn view(&self) -> TransactionView {
        TransactionView {
            date: self.date@,
            id: self.id,
            has_cleared: self.has_cleared,
            description: self.description@,
            entries: entry_views(self.entries@),
        }
    }
}

/// The marker of a transaction that has not cleared: a space and an asterisk.
pub open spec fn pending_marker() -> Seq<u8> {
    seq![32u8, 42u8]
}

/// True for the bytes of a description that would read as the marker of a
/// pending transaction: an asterisk alone, or an asterisk and a space first.
pub open spec fn reads_as_marker(text: Seq<u8>) -> bool {
    text == seq![42u8] || (text.len() >= 2 && text[0] == 42 && text[1] == 32)
}

/// The header line of a transaction: the date, the identifier, the marker
/// where the transaction is pending, and the description where there is one,
/// with single spaces between them.
pub open spec fn header_line(t: TransactionView) -> Seq<u8> {
    date_text(t.date) + seq![32u8] + encode_utf8(id_text(t.id)) + (if t.has_cleared {
        Seq::<u8>::empty()
    } else {
        pending_marker()
    }) + (if t.description.len() == 0 {
        Seq::<u8>::empty()
    } else {
        seq![32u8] + encode_utf8(t.description)
    })
}

/// The lines of entries, each after a line feed.
pub open spec fn entry_lines(entries: Seq<EntryView>) -> Seq<u8>
    decreases entries.len(),
{
    if entries.len() == 0 {
        Seq::empty()
    } else {
        entry_lines(entries.drop_last()) + seq![10u8] + entry_line(entries.last())
    }
}

/// The record of a transaction in the journal: its header line, then the
/// lines of its entries in the order of their accounts.
pub open spec fn record_text(t: TransactionView) -> Seq<u8> {
    header_line(t) + entry_lines(sort_entries(t.entries))
}

/// What a header line stands for, as a transaction without entries. The date
/// is what precedes the first space and the identifier what follows it up to
/// the next; a line without a space lacks its identifier, and an empty line
/// its date. Of what follows the identifier, an asterisk alone or before a
/// space marks the transaction as pending, and the rest is the description.
pub open spec fn parse_header(line: Seq<u8>) -> Result<TransactionView, Fault> {
    let first = position(line, 32);
    let rest = line.subrange(first + 1, line.len() as int);
    let second = position(rest, 32);
    let tail = if second == rest.len() {
        Seq::<u8>::empty()
    } else {
        rest.subrange(second + 1, rest.len() as int)
    };
    let pending = reads_as_marker(tail);
    let words = if !pending {
        tail
    } else if tail.len() == 1 {
        Seq::<u8>::empty()
    } else {
        tail.subrange(2, tail.len() as int)
    };
    if line.len() == 0 {
        Err(Fault::MissingTransactionField(date_field()))
    } else if first == line.len() {
        Err(Fault::MissingTransactionField(id_field()))
    } else if date_of_bytes(line.subrange(0, first)) is None {
        Err(Fault::InvalidTransactionDate)
    } else if id_of_bytes(rest.subrange(0, second)) is None {
        Err(Fault::InvalidTransactionId)
    } else if !valid_utf8(words) {
        Err(Fault::CorruptedLedgerFile)
    } else {
        Ok(
            TransactionView {
                date: date_of_bytes(line.subrange(0, first)).unwrap(),
                id: id_of_bytes(rest.subrange(0, second)).unwrap(),
                has_cleared: !pending,
                description: decode_utf8(words),
                entries: Seq::empty(),
            },
        )
    }
}

/// The entries that lines stand for, the lines parted by line feeds. The
/// first line that is no entry decides the failure.
pub open spec fn parse_entry_lines(lines: Seq<u8>) -> Result<Seq<EntryView>, Fault>
    decreases lines.len(),
{
    let end = position(lines, 10);
    match parse_entry_line(lines.subrange(0, end)) {
        Err(fault) => Err(fault),
        Ok(entry) => if !(0 <= end < lines.len()) {
            Ok(seq![entry])
        } else {
            match parse_entry_lines(lines.subrange(end + 1, lines.len() as int)) {
                Err(fault) => Err(fault),
                Ok(more) => Ok(seq![entry] + more),
            }
        },
    }
}

/// The transaction that a record stands for. The record must be text; its
/// first line is the header and every other line an entry. A record without
/// entries, or with entries that do not sum to zero, is refused.
pub open spec fn parse_record(record: Seq<u8>) -> Result<TransactionView, Fault> {
    let end = position(record, 10);
    if !valid_utf8(record) {
        Err(Fault::CorruptedLedgerFile)
    } else {
        match parse_header(record.subrange(0, end)) {
            Err(fault) => Err(fault),
            Ok(header) => if end >= record.len() {
                Err(Fault::MissingTransactionEntries)
            } else {
                match parse_entry_lines(record.subrange(end + 1, record.len() as int)) {
                    Err(fault) => Err(fault),
                    Ok(entries) => if entries_total(entries) != 0 {
                        Err(Fault::UnbalancedTransactionEntries)
                    } else {
                        Ok(
                            TransactionView {
                                date: header.date,
                                id: header.id,
                                has_cleared: header.has_cleared,
                                description: header.description,
                                entries,
                            },
                        )
                    },
                }
            },
        }
    }
}

/// The transactions whose record reads back as they are: a day of the
/// calendar, a description of one line that does not read as the marker of a
/// pending transaction, and one entry or more, in the order of their accounts,
/// each with an account of one line, that sum to zero.
pub open spec fn well_formed(t: TransactionView) -> bool {
    &&& t.date.valid()
    &&& free_of(encode_utf8(t.description), 10)
    &&& t.has_cleared ==> !reads_as_marker(encode_utf8(t.description))
    &&& t.entries.len() >= 1
    &&& entries_ordered(t.entries)
    &&& entries_total(t.entries) == 0
    &&& forall|i: int|
        0 <= i < t.entries.len() ==> free_of(encode_utf8((#[trigger] t.entries[i]).account), 10)
            && isize::MIN <= t.entries[i].value <= isize::MAX
}

/// A list of entries with `more` behind the entries of `list`.
pub open spec fn joined(list: Result<Seq<EntryView>, Fault>, seen: Seq<EntryView>) -> Result<
    Seq<EntryView>,
    Fault,
> {
    match list {
        Ok(more) => Ok(seen + more),
        Err(fault) => Err(fault),
    }
}

/// Reads a header line as a transaction without entries.
pub fn read_header(line: &[u8]) -> (r: Result<Transaction, Error>)
    ensures
        match r {
            Ok(t) => parse_header(line@) == Ok::<TransactionView, Fault>(t@),
            Err(error) => parse_header(line@) == Err::<TransactionView, Fault>(error@),
        },
{
    if line.len() == 0 {
        return Err(Error::missing_transaction_field("date"));
    }
    proof {
        assert(line@.subrange(0, line@.len() as int) =~= line@);
    }
    let first = find_byte(line, 0, 32);
    if first == line.len() {
        return Err(Error::missing_transaction_field("id"));
    }
    let date = match Date::parse(part(line, 0, first)) {
        Some(date) => date,
        None => {
            return Err(Error::invalid_transaction_date());
        },
    };
    let rest = part(line, first + 1, line.len());
    proof {
        assert(rest@.subrange(0, rest@.len() as int) =~= rest@);
    }
    let second = find_byte(rest, 0, 32);
    let id = match parse_id(part(rest, 0, second)) {
        Some(id) => id,
        None => {
            return Err(Error::invalid_transaction_id());
        },
    };
    let tail = if second == rest.len() {
        part(rest, second, second)
    } else {
        part(rest, second + 1, rest.len())
    };
    proof {
        if second == rest.len() {
            assert(tail@ =~= Seq::<u8>::empty());
        }
    }
    let alone = tail.len() == 1 && tail[0] == 42;
    let pending = alone || (tail.len() >= 2 && tail[0] == 42 && tail[1] == 32);
    proof {
        if alone {
            assert(tail@ =~= seq![42u8]);
        }
        if tail@ == seq![42u8] {
            assert(tail@.len() == 1 && tail@[0] == 42);
        }
    }
    let words = if !pending {
        tail
    } else if tail.len() == 1 {
        part(tail, 1, 1)
    } else {
        part(tail, 2, tail.len())
    };
    proof {
        if pending && tail.len() == 1 {
            assert(words@ =~= Seq::<u8>::empty());
        }
    }
    match text_of_bytes(words) {
        None => Err(Error::corrupted_ledger_file()),
        Some(text) => {
            proof {
                lemma_decode_unique(text@, words@);
                assert(entry_views(Seq::<Entry>::empty()) =~= Seq::<EntryView>::empty());
            }
            Ok(
                Transaction {
                    date,
                    id,
                    has_cleared: !pending,
                    description: text.to_owned(),
                    entries: Vec::new(),
                },
            )
        },
    }
}

/// Reads `bytes[from..]` as lines of entries.
pub fn read_entry_lines(bytes: &[u8], from: usize) -> (r: Result<Vec<Entry>, Error>)
    requires
        from <= bytes.len(),
    ensures
        match r {
            Ok(entries) => parse_entry_lines(bytes@.subrange(from as int, bytes@.len() as int))
                == Ok::<Seq<EntryView>, Fault>(entry_views(entries@)),
            Err(error) => parse_entry_lines(bytes@.subrange(from as int, bytes@.len() as int))
                == Err::<Seq<EntryView>, Fault>(error@),
        },
{
    let ghost whole = parse_entry_lines(bytes@.subrange(from as int, bytes@.len() as int));
    let mut entries: Vec<Entry> = Vec::new();
    let mut at: usize = from;
    proof {
        assert(entry_views(entries@) =~= Seq::<EntryView>::empty());
        match whole {
            Ok(more) => {
                assert(Seq::<EntryView>::empty() + more =~= more);
            },
            Err(_) => {},
        }
    }
    loop
        invariant
            from <= at <= bytes.len(),
            whole == parse_entry_lines(bytes@.subrange(from as int, bytes@.len() as int)),
            whole == joined(
                parse_entry_lines(bytes@.subrange(at as int, bytes@.len() as int)),
                entry_views(entries@),
            ),
        decreases bytes.len() - at,
    {
        let ghost lines = bytes@.subrange(at as int, bytes@.len() as int);
        let ghost seen = entry_views(entries@);
        let end = find_byte(bytes, at, 10);
        proof {
            assert(lines.subrange(0, end - at) =~= bytes@.subrange(at as int, end as int));
            if end < bytes.len() {
                assert(lines.subrange(end - at + 1, lines.len() as int) =~= bytes@.subrange(
                    end + 1,
                    bytes@.len() as int,
                ));
            }
        }
        match Entry::parse(bytes, at, end) {
            Err(error) => {
                return Err(error);
            },
            Ok(entry) => {
                entries.push(entry);
                proof {
                    assert(entry_views(entries@) =~= seen + seq![entry@]);
                    if end < bytes.len() {
                        match parse_entry_lines(
                            bytes@.subrange(end + 1, bytes@.len() as int),
                        ) {
                            Ok(more) => {
                                assert(seen + (seq![entry@] + more) =~= (seen + seq![entry@])
                                    + more);
                            },
                            Err(_) => {},
                        }
                    }
                }
                if end >= bytes.len() {
                    return Ok(entries);
                }
                at = end + 1;
            },
        }
    }
}

impl Transaction {
    /// A transaction of the given parts.
    pub fn new(
        date: Date,
        id: u128,
        has_cleared: bool,
        description: String,
        entries: Vec<Entry>,
    ) -> (t: Self)
        ensures
            t@ == (TransactionView {
                date: date@,
                id,
                has_cleared,
                description: description@,
                entries: entry_views(entries@),
            }),
    {
        Self { date, id, has_cleared, description, entries }
    }

    pub fn date(&self) -> (date: Date)
        ensures
            date@ == self@.date,
    {
        self.date
    }

    pub fn id(&self) -> (id: u128)
        ensures
            id == self@.id,
    {
        self.id
    }

    pub fn has_cleared(&self) -> (has_cleared: bool)
        ensures
            has_cleared == self@.has_cleared,
    {
        self.has_cleared
    }

    pub fn description(&self) -> (description: &String)
        ensures
            description@ == self@.description,
    {
        &self.description
    }

    pub fn entries(&self) -> (entries: &Vec<Entry>)
        ensures
            entry_views(entries@) == self@.entries,
    {
        &self.entries
    }

    /// Appends the record of this transaction to `out`.
    pub fn write_to(&self, out: &mut Vec<u8>)
        ensures
            final(out)@ == old(out)@ + record_text(self@),
    {
        self.date.write_to(out);
        out.push(32);
        let id = id_to_text(self.id);
        append_bytes(out, id.as_str().as_bytes());
        if !self.has_cleared {
            out.push(32);
            out.push(42);
        }
        if !self.description.as_str().is_empty() {
            out.push(32);
            append_bytes(out, self.description.as_str().as_bytes());
        }
        proof {
            assert(out@ =~= old(out)@ + header_line(self@));
        }
        let sorted = sort_entry_list(self.entries.as_slice());
        let ghost lines = entry_views(sorted@);
        let mut i: usize = 0;
        while i < sorted.len()
            invariant
                i <= sorted.len(),
                lines == entry_views(sorted@),
                out@ == old(out)@ + header_line(self@) + entry_lines(lines.subrange(0, i as int)),
            decreases sorted.len() - i,
        {
            let ghost before = out@;
            out.push(10);
            sorted[i].write_to(out);
            proof {
                let next = lines.subrange(0, i + 1);
                assert(next.drop_last() =~= lines.subrange(0, i as int));
                assert(next.last() == sorted@[i as int]@);
                assert(out@ =~= old(out)@ + header_line(self@) + entry_lines(next));
            }
            i += 1;
        }
        proof {
            assert(lines.subrange(0, i as int) =~= lines);
            assert(out@ =~= old(out)@ + record_text(self@));
        }
    }

    /// Reads a record of the journal as a transaction.
    pub fn parse(record: &[u8]) -> (r: Result<Transaction, Error>)
        ensures
            match r {
                Ok(t) => parse_record(record@) == Ok::<TransactionView, Fault>(t@),
                Err(error) => parse_record(record@) == Err::<TransactionView, Fault>(error@),
            },
    {
        if text_of_bytes(record).is_none() {
            return Err(Error::corrupted_ledger_file());
        }
        proof {
            assert(record@.subrange(0, record@.len() as int) =~= record@);
        }
        let end = find_byte(record, 0, 10);
        let header = match read_header(part(record, 0, end)) {
            Ok(header) => header,
            Err(error) => {
                return Err(error);
            },
        };
        if end >= record.len() {
            return Err(Error::missing_transaction_entries());
        }
        let entries = match read_entry_lines(record, end + 1) {
            Ok(entries) => entries,
            Err(error) => {
                return Err(error);
            },
        };
        if !sums_to_zero(entries.as_slice()) {
            return Err(Error::unbalanced_transaction_entries());
        }
        Ok(
            Transaction {
                date: header.date,
                id: header.id,
                has_cleared: header.has_cleared,
                description: header.description,
                entries,
            },
        )
    }
}

/// Tells whether the values of the entries sum to zero.
pub fn sums_to_zero(entries: &[Entry]) -> (r: bool)
    ensures
        r == (entries_total(entry_views(entries@)) == 0),
{
    let ghost views = entry_views(entries@);
    let mut total: i128 = 0;
    let mut i: usize = 0;
    proof {
        assert(views.subrange(0, 0) =~= Seq::<EntryView>::empty());
    }
    while i < entries.len()
        invariant
            i <= entries.len(),
            views == entry_views(entries@),
            total == entries_total(views.subrange(0, i as int)),
            -(i * 0x8000_0000_0000_0000) <= total <= i * 0x8000_0000_0000_0000,
        decreases entries.len() - i,
    {
        proof {
            let next = views.subrange(0, i + 1);
            assert(next.drop_last() =~= views.subrange(0, i as int));
            assert(next.last() == entries@[i as int]@);
        }
        total = total + entries[i].value() as i128;
        i += 1;
    }
    proof {
        assert(views.subrange(0, i as int) =~= views);
    }
    total == 0
}

/// True when `s` holds no two line feeds in a row.
pub open spec fn no_blank_line(s: Seq<u8>) -> bool {
    forall|j: int| 0 <= j < s.len() - 1 ==> !(#[trigger] s[j] == 10 && s[j + 1] == 10)
}

/// The lines of entries, seen from the first entry.
pub proof fn lemma_entry_lines_front(entries: Seq<EntryView>)
    requires
        entries.len() >= 1,
    ensures
        entry_lines(entries) == seq![10u8] + entry_line(entries[0]) + entry_lines(
            entries.drop_first(),
        ),
    decreases entries.len(),
{
    let head = entries.drop_last();
    let tail = entries.drop_first();
    if head.len() == 0 {
        assert(tail =~= Seq::<EntryView>::empty());
        assert(entry_lines(head) =~= Seq::<u8>::empty());
        assert(entry_lines(entries) =~= seq![10u8] + entry_line(entries[0]) + entry_lines(tail));
    } else {
        lemma_entry_lines_front(head);
        assert(tail.drop_last() =~= head.drop_first());
        assert(tail.last() == entries.last());
        assert(head[0] == entries[0]);
        assert(entry_lines(entries) =~= seq![10u8] + entry_line(entries[0]) + entry_lines(tail));
    }
}

/// The lines of entries read back as the entries. They start with a line
/// feed, do not end with one, hold no blank line, and are text.
pub proof fn lemma_entry_lines(entries: Seq<EntryView>)
    requires
        entries.len() >= 1,
        forall|i: int|
            0 <= i < entries.len() ==> free_of(encode_utf8((#[trigger] entries[i]).account), 10)
                && isize::MIN <= entries[i].value <= isize::MAX,
    ensures
        entry_lines(entries).len() >= 4,
        entry_lines(entries)[0] == 10,
        entry_lines(entries).last() != 10,
        no_blank_line(entry_lines(entries)),
        valid_utf8(entry_lines(entries)),
        parse_entry_lines(entry_lines(entries).drop_first()) == Ok::<Seq<EntryView>, Fault>(
            entries,
        ),
    decreases entries.len(),
{
    let all = entry_lines(entries);
    let first = entries[0];
    let line = entry_line(first);
    let tail = entries.drop_first();
    let rest = entry_lines(tail);
    lemma_entry_lines_front(entries);
    lemma_entry_line(first);
    assert(free_of(encode_utf8(first.account), 10));
    assert(all =~= seq![10u8] + line + rest);
    let body = all.drop_first();
    assert(body =~= line + rest);
    lemma_ascii_bytes(seq![10u8]);
    valid_utf8_concat(seq![10u8], line);
    if tail.len() == 0 {
        assert(rest =~= Seq::<u8>::empty());
        assert(body =~= line);
        lemma_position(body, 10, body.len() as int);
        assert(body.subrange(0, body.len() as int) =~= line);
        assert(seq![first] =~= entries);
        assert(all.last() == line.last());
        assert forall|j: int| 0 <= j < all.len() - 1 implies !(#[trigger] all[j] == 10 && all[j
            + 1] == 10) by {
            assert(all[j + 1] == line[j]);
        }
        assert(all =~= seq![10u8] + line);
    } else {
        assert forall|i: int| 0 <= i < tail.len() implies free_of(
            encode_utf8((#[trigger] tail[i]).account),
            10,
        ) && isize::MIN <= tail[i].value <= isize::MAX by {
            assert(tail[i] == entries[i + 1]);
        }
        lemma_entry_lines(tail);
        assert(body[line.len() as int] == rest[0]);
        assert forall|j: int| 0 <= j < line.len() implies body[j] != 10 by {
            assert(body[j] == line[j]);
        }
        lemma_position(body, 10, line.len() as int);
        assert(body.subrange(0, line.len() as int) =~= line);
        assert(body.subrange(line.len() as int + 1, body.len() as int) =~= rest.drop_first());
        assert(seq![first] + tail =~= entries);
        assert(all.last() == rest.last());
        assert forall|j: int| 0 <= j < all.len() - 1 implies !(#[trigger] all[j] == 10 && all[j
            + 1] == 10) by {
            if j == 0 {
                assert(all[1] == line[0]);
            } else if j < line.len() {
                assert(all[j] == line[j - 1]);
            } else if j == line.len() {
                assert(all[j] == line.last());
            } else {
                assert(all[j] == rest[j - line.len() - 1]);
                assert(all[j + 1] == rest[j - line.len()]);
            }
        }
        valid_utf8_concat(seq![10u8] + line, rest);
    }
}

/// The header line of a transaction reads back as the transaction without
/// its entries. It is text of one line.
pub proof fn lemma_header_line(t: TransactionView)
    requires
        t.date.valid(),
        free_of(encode_utf8(t.description), 10),
        t.has_cleared ==> !reads_as_marker(encode_utf8(t.description)),
    ensures
        parse_header(header_line(t)) == Ok::<TransactionView, Fault>(
            TransactionView {
                date: t.date,
                id: t.id,
                has_cleared: t.has_cleared,
                description: t.description,
                entries: Seq::empty(),
            },
        ),
        header_line(t).len() >= 37,
        free_of(header_line(t), 10),
        valid_utf8(header_line(t)),
{
    let line = header_line(t);
    let date = date_text(t.date);
    let id = encode_utf8(id_text(t.id));
    let words = encode_utf8(t.description);
    let mark = if t.has_cleared {
        Seq::<u8>::empty()
    } else {
        pending_marker()
    };
    let told = if t.description.len() == 0 {
        Seq::<u8>::empty()
    } else {
        seq![32u8] + words
    };
    lemma_date_text(t.date);
    lemma_id_text(t.id);
    lemma_ascii_chars(id_text(t.id));
    lemma_decode_unique(id_text(t.id), id);
    lemma_decode_unique(t.description, words);
    lemma_decode_unique(Seq::<char>::empty(), Seq::<u8>::empty());
    assert(all_ascii(date)) by {
        assert forall|i: int| 0 <= i < date.len() implies #[trigger] date[i] < 128 by {
            assert(is_digit(date[i]) || date[i] == 45);
        }
    }
    lemma_ascii_bytes(date);
    vstd::utf8::decode_utf8_encode_utf8(date);
    assert(line =~= date + seq![32u8] + id + mark + told);
    // the date is what precedes the first space
    assert forall|j: int| 0 <= j < 10 implies line[j] != 32 by {
        assert(line[j] == date[j]);
        assert(is_digit(date[j]) || date[j] == 45);
    }
    lemma_position(line, 32, 10);
    assert(line.subrange(0, 10) =~= date);
    assert(date_of_bytes(date) == Some(t.date));
    // the identifier is what follows, up to the next space
    let rest = line.subrange(11, line.len() as int);
    assert(rest =~= id + mark + told);
    assert forall|j: int| 0 <= j < 26 implies rest[j] != 32 && rest[j] != 10 by {
        assert(rest[j] == id[j]);
        assert(id[j] as int == id_text(t.id)[j] as int);
    }
    assert(rest.subrange(0, 26) =~= id);
    assert(id_of_bytes(id) == Some(t.id));
    if mark.len() == 0 && told.len() == 0 {
        assert(rest =~= id);
        lemma_position(rest, 32, 26);
        assert(t.description =~= Seq::<char>::empty());
    } else {
        assert(rest[26] == 32) by {
            if mark.len() > 0 {
                assert(rest[26] == mark[0]);
            } else {
                assert(rest[26] == told[0]);
            }
        }
        lemma_position(rest, 32, 26);
        let tail = rest.subrange(27, rest.len() as int);
        if !t.has_cleared {
            if t.description.len() == 0 {
                assert(tail =~= seq![42u8]);
                assert(t.description =~= Seq::<char>::empty());
            } else {
                assert(tail =~= seq![42u8, 32u8] + words);
                assert(tail.subrange(2, tail.len() as int) =~= words);
                assert(tail.len() >= 2);
                assert(!(tail == seq![42u8])) by {
                    assert(seq![42u8].len() == 1);
                }
            }
        } else {
            assert(tail =~= words);
        }
    }
    // one line of text
    assert forall|j: int| 0 <= j < line.len() implies line[j] != 10 by {
        if j < 10 {
            assert(line[j] == date[j]);
            assert(is_digit(date[j]) || date[j] == 45);
        } else if j == 10 {
        } else if j < 37 {
            assert(line[j] == rest[j - 11]);
        } else if j < 37 + mark.len() {
            assert(line[j] == mark[j - 37]);
        } else {
            assert(line[j] == told[j - 37 - mark.len()]);
            if j > 37 + mark.len() {
                assert(told[j - 37 - mark.len()] == words[j - 38 - mark.len()]);
            }
        }
    }
    lemma_ascii_bytes(seq![32u8]);
    lemma_ascii_bytes(pending_marker());
    lemma_ascii_bytes(Seq::<u8>::empty());
    valid_utf8_concat(seq![32u8], words);
    valid_utf8_concat(date, seq![32u8]);
    valid_utf8_concat(date + seq![32u8], id);
    valid_utf8_concat(date + seq![32u8] + id, mark);
    valid_utf8_concat(date + seq![32u8] + id + mark, told);
}

/// The record of a well-formed transaction reads back as the transaction. It
/// is not empty, does not end with a line feed and holds no blank line.
pub proof fn lemma_record_text(t: TransactionView)
    requires
        well_formed(t),
    ensures
        parse_record(record_text(t)) == Ok::<TransactionView, Fault>(t),
        record_text(t).len() >= 1,
        record_text(t).last() != 10,
        no_blank_line(record_text(t)),
{
    let header = header_line(t);
    let lines = entry_lines(t.entries);
    let record = record_text(t);
    lemma_sort_ordered(t.entries);
    lemma_header_line(t);
    lemma_entry_lines(t.entries);
    assert(record =~= header + lines);
    assert(record[header.len() as int] == lines[0]);
    assert forall|j: int| 0 <= j < header.len() implies record[j] != 10 by {
        assert(record[j] == header[j]);
    }
    lemma_position(record, 10, header.len() as int);
    assert(record.subrange(0, header.len() as int) =~= header);
    assert(record.subrange(header.len() as int + 1, record.len() as int) =~= lines.drop_first());
    valid_utf8_concat(header, lines);
    assert(record.last() == lines.last());
    assert forall|j: int| 0 <= j < record.len() - 1 implies !(#[trigger] record[j] == 10
        && record[j + 1] == 10) by {
        if j < header.len() {
            assert(record[j] == header[j]);
        } else {
            assert(record[j] == lines[j - header.len()]);
            assert(record[j + 1] == lines[j - header.len() + 1]);
        }
    }
}

/// The transaction that is made of the given parts and pairs of an account
/// and a value that may be left out. Without pairs there is nothing to make;
/// otherwise the pairs are balanced, and the transaction holds what
/// balancing returns.
pub open spec fn constructed(
    date: Day,
    id: u128,
    has_cleared: bool,
    description: Seq<char>,
    pairs: Seq<(Seq<char>, Option<int>)>,
) -> Result<TransactionView, Fault> {
    if pairs.len() == 0 {
        Err(Fault::MissingTransactionEntries)
    } else {
        match balanced_entries(pairs) {
            Err(fault) => Err(fault),
            Ok(entries) => Ok(TransactionView { date, id, has_cleared, description, entries }),
        }
    }
}

/// Whether a transaction can be made does not depend on its identifier, nor
/// does anything but the identifier of what is made.
pub proof fn lemma_constructed_id(
    date: Day,
    id: u128,
    other: u128,
    has_cleared: bool,
    description: Seq<char>,
    pairs: Seq<(Seq<char>, Option<int>)>,
)
    ensures
        match constructed(date, id, has_cleared, description, pairs) {
            Ok(t) => constructed(date, other, has_cleared, description, pairs) == Ok::<
                TransactionView,
                Fault,
            >(TransactionView { id: other, ..t }),
            Err(fault) => constructed(date, other, has_cleared, description, pairs) == Err::<
                TransactionView,
                Fault,
            >(fault),
        },
{
}

impl Transaction {
    /// Makes the transaction with the identifier `id` out of entries whose
    /// values may be left out.
    pub fn with_id(
        date: Date,
        id: u128,
        has_cleared: bool,
        description: String,
        entries: &[(String, Option<isize>)],
    ) -> (r: Result<Transaction, Error>)
        ensures
            match r {
                Ok(t) => constructed(
                    date@,
                    id,
                    has_cleared,
                    description@,
                    pair_views(entries@),
                ) == Ok::<TransactionView, Fault>(t@),
                Err(error) => constructed(
                    date@,
                    id,
                    has_cleared,
                    description@,
                    pair_views(entries@),
                ) == Err::<TransactionView, Fault>(error@),
            },
    {
        if entries.len() == 0 {
            return Err(Error::missing_transaction_entries());
        }
        match validate_and_normalize_entries(entries) {
            Err(error) => Err(error),
            Ok(balanced) => Ok(Transaction::new(date, id, has_cleared, description, balanced)),
        }
    }

    /// Makes a transaction with an identifier of its own out of entries whose
    /// values may be left out. Whatever the identifier, the outcome is that of
    /// `with_id` for it.
    pub fn create(
        date: Date,
        has_cleared: bool,
        description: String,
        entries: &[(String, Option<isize>)],
    ) -> (r: Result<Transaction, Error>)
        ensures
            match r {
                Ok(t) => constructed(
                    date@,
                    t@.id,
                    has_cleared,
                    description@,
                    pair_views(entries@),
                ) == Ok::<TransactionView, Fault>(t@),
                Err(error) => forall|id: u128|
                    #[trigger] constructed(
                        date@,
                        id,
                        has_cleared,
                        description@,
                        pair_views(entries@),
                    ) == Err::<TransactionView, Fault>(error@),
            },
    {
        let id = fresh_id();
        let r = Transaction::with_id(date, id, has_cleared, description, entries);
        proof {
            assert forall|other: u128|
                r is Err implies #[trigger] constructed(
                date@,
                other,
                has_cleared,
                description@,
                pair_views(entries@),
            ) == Err::<TransactionView, Fault>(r->Err_0@) by {
                lemma_constructed_id(
                    date@,
                    id,
                    other,
                    has_cleared,
                    description@,
                    pair_views(entries@),
                );
            }
        }
        r
    }
}

} // verus!
