//! The journal: records of transactions parted by blank lines.

use crate::entry::{entries_ordered, entries_total, lemma_sort_entries, sort_entries};
use crate::error::{Error, Fault};
use crate::text::part;
use crate::transaction::{
    entry_lines, header_line, lemma_record_text, no_blank_line, parse_record, record_text,
    well_formed, Transaction, TransactionView,
};
use vstd::prelude::*;

verus! {

/// The values of a sequence of transactions.
pub open spec fn transaction_views(transactions: Seq<Transaction>) -> Seq<TransactionView> {
    Seq::new(transactions.len(), |i: int| transactions[i]@)
}

/// Index of the first line feed in `s` that another line feed follows, or
/// `s.len()` when there is none.
pub open spec fn blank_line(s: Seq<u8>) -> int
    decreases s.len(),
{
    if s.len() < 2 {
        s.len() as int
    } else if s[0] == 10 && s[1] == 10 {
        0
    } else {
        1 + blank_line(s.drop_first())
    }
}

/// `blank_line` is the only index that is preceded by no pair of line feeds
/// and is either the end of `s` or the first of such a pair.
pub proof fn lemma_blank_line(s: Seq<u8>, r: int)
    requires
        0 <= r <= s.len(),
        forall|j: int| 0 <= j < r && j + 1 < s.len() ==> !(#[trigger] s[j] == 10 && s[j + 1] == 10),
        r == s.len() || (r + 1 < s.len() && s[r] == 10 && s[r + 1] == 10),
    ensures
        blank_line(s) == r,
    decreases s.len(),
{
    if s.len() < 2 {
    } else if s[0] == 10 && s[1] == 10 {
        if r > 0 {
            assert(!(s[0int] == 10 && s[0int + 1] == 10));
        }
    } else {
        let t = s.drop_first();
        assert forall|j: int| 0 <= j < r - 1 && j + 1 < t.len() implies !(#[trigger] t[j] == 10
            && t[j + 1] == 10) by {
            assert(t[j] == s[j + 1]);
            assert(!(s[j + 1] == 10 && s[j + 1 + 1] == 10));
        }
        lemma_blank_line(t, r - 1);
    }
}

/// The bytes of a journal: the records of its transactions with a blank line
/// between one record and the next.
pub open spec fn journal_text(transactions: Seq<TransactionView>) -> Seq<u8>
    decreases transactions.len(),
{
    if transactions.len() == 0 {
        Seq::empty()
    } else if transactions.len() == 1 {
        record_text(transactions[0])
    } else {
        journal_text(transactions.drop_last()) + seq![10u8, 10u8] + record_text(
            transactions.last(),
        )
    }
}

/// The transactions that the bytes of a journal stand for. No bytes stand for
/// no transaction. Otherwise the first record ends before the first blank
/// line, or with the bytes, and what follows the blank line is read in the
/// same way. The first record that is no transaction decides the failure.
pub open spec fn decode_journal(bytes: Seq<u8>) -> Result<Seq<TransactionView>, Fault>
    decreases bytes.len(),
{
    let end = blank_line(bytes);
    if bytes.len() == 0 {
        Ok(Seq::empty())
    } else {
        match parse_record(bytes.subrange(0, end)) {
            Err(fault) => Err(fault),
            Ok(t) => if !(0 <= end && end + 2 <= bytes.len()) {
                Ok(seq![t])
            } else {
                match decode_journal(bytes.subrange(end + 2, bytes.len() as int)) {
                    Err(fault) => Err(fault),
                    Ok(more) => Ok(seq![t] + more),
                }
            },
        }
    }
}

/// The transactions read so far, followed by those that `list` holds.
pub open spec fn following(
    list: Result<Seq<TransactionView>, Fault>,
    seen: Seq<TransactionView>,
) -> Result<Seq<TransactionView>, Fault> {
    match list {
        Ok(more) => Ok(seen + more),
        Err(fault) => Err(fault),
    }
}

/// The bytes of a journal, seen from its first record.
pub proof fn lemma_journal_front(transactions: Seq<TransactionView>)
    requires
        transactions.len() >= 2,
    ensures
        journal_text(transactions) == record_text(transactions[0]) + seq![10u8, 10u8]
            + journal_text(transactions.drop_first()),
    decreases transactions.len(),
{
    let head = transactions.drop_last();
    let tail = transactions.drop_first();
    let gap = seq![10u8, 10u8];
    let first = record_text(transactions[0]);
    let last = record_text(transactions.last());
    assert(tail.last() == transactions.last());
    assert(head[0] == transactions[0]);
    assert(journal_text(transactions) == journal_text(head) + gap + last);
    if transactions.len() == 2 {
        assert(tail[0] == transactions.last());
        assert(journal_text(head) == first);
        assert(journal_text(tail) == last);
    } else {
        lemma_journal_front(head);
        let middle = journal_text(head.drop_first());
        assert(tail.drop_last() =~= head.drop_first());
        assert(journal_text(head) == first + gap + middle);
        assert(journal_text(tail) == middle + gap + last);
        assert((first + gap + middle) + gap + last =~= first + gap + (middle + gap + last));
    }
}

/// Where a record ends in a journal: a record that holds no blank line and
/// does not end with a line feed ends at the blank line that follows it, or
/// with the bytes.
pub proof fn lemma_record_end(record: Seq<u8>, rest: Seq<u8>)
    requires
        record.len() >= 1,
        record.last() != 10,
        no_blank_line(record),
    ensures
        blank_line(record) == record.len(),
        blank_line(record + seq![10u8, 10u8] + rest) == record.len(),
{
    let end = record.len() as int;
    let bytes = record + seq![10u8, 10u8] + rest;
    assert forall|j: int| 0 <= j < end && j + 1 < record.len() implies !(#[trigger] record[j]
        == 10 && record[j + 1] == 10) by {}
    lemma_blank_line(record, end);
    assert(bytes[end] == 10 && bytes[end + 1] == 10);
    assert forall|j: int| 0 <= j < end && j + 1 < bytes.len() implies !(#[trigger] bytes[j] == 10
        && bytes[j + 1] == 10) by {
        assert(bytes[j] == record[j]);
        if j + 1 < end {
            assert(bytes[j + 1] == record[j + 1]);
        } else {
            assert(record[j] == record.last());
        }
    }
    lemma_blank_line(bytes, end);
}

/// What a journal stands for, given what its first record and the rest stand
/// for.
pub proof fn lemma_decode_front(
    record: Seq<u8>,
    rest: Seq<u8>,
    t: TransactionView,
    more: Seq<TransactionView>,
)
    requires
        record.len() >= 1,
        record.last() != 10,
        no_blank_line(record),
        parse_record(record) == Ok::<TransactionView, Fault>(t),
        decode_journal(rest) == Ok::<Seq<TransactionView>, Fault>(more),
    ensures
        decode_journal(record) == Ok::<Seq<TransactionView>, Fault>(seq![t]),
        decode_journal(record + seq![10u8, 10u8] + rest) == Ok::<Seq<TransactionView>, Fault>(
            seq![t] + more,
        ),
{
    let bytes = record + seq![10u8, 10u8] + rest;
    let end = record.len() as int;
    lemma_record_end(record, rest);
    assert(record.subrange(0, end) =~= record);
    assert(bytes.subrange(0, end) =~= record);
    assert(bytes.subrange(end + 2, bytes.len() as int) =~= rest);
}

/// Decoding what was encoded gives the transactions back: the journal of
/// well-formed transactions stands for exactly these transactions, in their
/// order.
pub proof fn lemma_round_trip(transactions: Seq<TransactionView>)
    requires
        all_well_formed(transactions),
    ensures
        decode_journal(journal_text(transactions)) == Ok::<Seq<TransactionView>, Fault>(
            transactions,
        ),
    decreases transactions.len(),
{
    if transactions.len() == 0 {
        assert(transactions =~= Seq::<TransactionView>::empty());
    } else {
        let first = transactions[0];
        let tail = transactions.drop_first();
        assert(well_formed(first));
        lemma_record_text(first);
        assert(all_well_formed(tail)) by {
            assert forall|i: int| 0 <= i < tail.len() implies well_formed(#[trigger] tail[i]) by {
                assert(tail[i] == transactions[i + 1]);
            }
        }
        lemma_round_trip(tail);
        lemma_decode_front(record_text(first), journal_text(tail), first, tail);
        assert(seq![first] + tail =~= transactions);
        if transactions.len() == 1 {
            assert(seq![first] =~= transactions);
        } else {
            lemma_journal_front(transactions);
        }
    }
}

/// Whatever a journal decodes to, each of its transactions has one entry or
/// more, and its entries sum to zero: a record that has drifted is refused.
pub proof fn lemma_decoded_balanced(bytes: Seq<u8>)
    ensures
        decode_journal(bytes) matches Ok(transactions) ==> forall|i: int|
            0 <= i < transactions.len() ==> (#[trigger] transactions[i]).entries.len() >= 1
                && entries_total(transactions[i].entries) == 0,
    decreases bytes.len(),
{
    let end = blank_line(bytes);
    if bytes.len() > 0 && parse_record(bytes.subrange(0, end)) is Ok && 0 <= end && end + 2
        <= bytes.len() {
        lemma_decoded_balanced(bytes.subrange(end + 2, bytes.len() as int));
    }
}

/// Whatever the order of the entries of a transaction, its record holds
/// their lines in the order of their accounts, and holds each entry once.
pub proof fn lemma_record_is_ordered(t: TransactionView)
    ensures
        record_text(t) == header_line(t) + entry_lines(sort_entries(t.entries)),
        entries_ordered(sort_entries(t.entries)),
        sort_entries(t.entries).to_multiset() == t.entries.to_multiset(),
{
    lemma_sort_entries(t.entries);
}

/// Finds the first blank line in `bytes[from..]`: the result is the index of
/// its first line feed, or `bytes.len()` when there is none.
pub fn find_blank_line(bytes: &[u8], from: usize) -> (at: usize)
    requires
        from <= bytes.len(),
    ensures
        from <= at <= bytes.len(),
        at == from + blank_line(bytes@.subrange(from as int, bytes@.len() as int)),
        at < bytes.len() ==> at + 2 <= bytes.len(),
{
    let mut i: usize = from;
    let mut after_line_feed: bool = false;
    while i < bytes.len() && !(after_line_feed && bytes[i] == 10)
        invariant
            from <= i <= bytes.len(),
            after_line_feed == (i > from && bytes@[i - 1] == 10),
            forall|j: int|
                from <= j && j + 1 < i ==> !(#[trigger] bytes@[j] == 10 && bytes@[j + 1] == 10),
        decreases bytes.len() - i,
    {
        after_line_feed = bytes[i] == 10;
        i += 1;
    }
    let at: usize = if i < bytes.len() {
        i - 1
    } else {
        i
    };
    proof {
        let s = bytes@.subrange(from as int, bytes@.len() as int);
        assert forall|j: int| 0 <= j < at - from && j + 1 < s.len() implies !(#[trigger] s[j] == 10
            && s[j + 1] == 10) by {
            assert(s[j] == bytes@[from + j]);
            assert(s[j + 1] == bytes@[from + j + 1]);
        }
        lemma_blank_line(s, at - from);
    }
    at
}

/// Decodes the bytes of a journal into its transactions.
pub fn read_transactions(bytes: &[u8]) -> (r: Result<Vec<Transaction>, Error>)
    ensures
        match r {
            Ok(transactions) => decode_journal(bytes@) == Ok::<Seq<TransactionView>, Fault>(
                transaction_views(transactions@),
            ),
            Err(error) => decode_journal(bytes@) == Err::<Seq<TransactionView>, Fault>(error@),
        },
        bytes@.len() == 0 ==> r is Ok && r.unwrap()@.len() == 0,
{
    let ghost whole = decode_journal(bytes@);
    let mut transactions: Vec<Transaction> = Vec::new();
    let mut at: usize = 0;
    proof {
        assert(bytes@.subrange(0, bytes@.len() as int) =~= bytes@);
        assert(transaction_views(transactions@) =~= Seq::<TransactionView>::empty());
        match whole {
            Ok(more) => {
                assert(Seq::<TransactionView>::empty() + more =~= more);
            },
            Err(_) => {},
        }
    }
    while at < bytes.len()
        invariant
            at <= bytes.len(),
            whole == decode_journal(bytes@),
            whole == following(
                decode_journal(bytes@.subrange(at as int, bytes@.len() as int)),
                transaction_views(transactions@),
            ),
        decreases bytes.len() - at,
    {
        let ghost rest = bytes@.subrange(at as int, bytes@.len() as int);
        let ghost seen = transaction_views(transactions@);
        let end = find_blank_line(bytes, at);
        proof {
            assert(rest.subrange(0, end - at) =~= bytes@.subrange(at as int, end as int));
            if end < bytes.len() {
                assert(rest.subrange(end - at + 2, rest.len() as int) =~= bytes@.subrange(
                    end + 2,
                    bytes@.len() as int,
                ));
            }
        }
        match Transaction::parse(part(bytes, at, end)) {
            Err(error) => {
                return Err(error);
            },
            Ok(t) => {
                transactions.push(t);
                proof {
                    assert(transaction_views(transactions@) =~= seen + seq![t@]);
                    if end < bytes.len() {
                        match decode_journal(bytes@.subrange(end + 2, bytes@.len() as int)) {
                            Ok(more) => {
                                assert(seen + (seq![t@] + more) =~= (seen + seq![t@]) + more);
                            },
                            Err(_) => {},
                        }
                    }
                }
                if end >= bytes.len() {
                    return Ok(transactions);
                }
                at = end + 2;
            },
        }
    }
    proof {
        let seen = transaction_views(transactions@);
        assert(bytes@.subrange(at as int, bytes@.len() as int) =~= Seq::<u8>::empty());
        assert(seen + Seq::<TransactionView>::empty() =~= seen);
    }
    Ok(transactions)
}

/// True when every transaction of the sequence is well-formed.
pub open spec fn all_well_formed(transactions: Seq<TransactionView>) -> bool {
    forall|i: int| 0 <= i < transactions.len() ==> well_formed(#[trigger] transactions[i])
}

/// Encodes transactions as the bytes of a journal. The journal of
/// well-formed transactions decodes to these transactions.
pub fn write_transactions(transactions: &[Transaction]) -> (bytes: Vec<u8>)
    ensures
        bytes@ == journal_text(transaction_views(transactions@)),
        all_well_formed(transaction_views(transactions@)) ==> decode_journal(bytes@) == Ok::<
            Seq<TransactionView>,
            Fault,
        >(transaction_views(transactions@)),
{
    let ghost views = transaction_views(transactions@);
    let mut bytes: Vec<u8> = Vec::new();
    let mut i: usize = 0;
    proof {
        assert(views.subrange(0, 0) =~= Seq::<TransactionView>::empty());
    }
    while i < transactions.len()
        invariant
            i <= transactions.len(),
            views == transaction_views(transactions@),
            bytes@ == journal_text(views.subrange(0, i as int)),
        decreases transactions.len() - i,
    {
        if i > 0 {
            bytes.push(10);
            bytes.push(10);
        }
        transactions[i].write_to(&mut bytes);
        proof {
            let next = views.subrange(0, i + 1);
            assert(next.drop_last() =~= views.subrange(0, i as int));
            assert(next.last() == transactions@[i as int]@);
            if i == 0 {
                assert(next[0] == transactions@[0]@);
                assert(bytes@ =~= journal_text(next));
            } else {
                assert(bytes@ =~= journal_text(next.drop_last()) + seq![10u8, 10u8] + record_text(
                    next.last(),
                ));
            }
        }
        i += 1;
    }
    proof {
        assert(views.subrange(0, i as int) =~= views);
        if all_well_formed(views) {
            lemma_round_trip(views);
        }
    }
    bytes
}

} // verus!
