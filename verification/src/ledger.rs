//! The list of transactions of a ledger, kept in the order of their dates.

use crate::balance::pair_views;
use crate::date::Date;
use crate::error::{Error, Fault};
use crate::journal::transaction_views;
use crate::transaction::{constructed, Transaction, TransactionView};
use vstd::prelude::*;

verus! {

/// The date of `a` is not later than that of `b`.
pub open spec fn date_le(a: TransactionView, b: TransactionView) -> bool {
    a.date.rank() <= b.date.rank()
}

/// True when the dates never step back from one transaction to a later one.
pub open spec fn dates_ordered(transactions: Seq<TransactionView>) -> bool {
    forall|i: int, j: int|
        0 <= i < j < transactions.len() ==> date_le(transactions[i], transactions[j])
}

/// `t` put into `transactions` behind the last transaction whose date is not
/// later than its own.
pub open spec fn insert_transaction(
    transactions: Seq<TransactionView>,
    t: TransactionView,
) -> Seq<TransactionView>
    decreases transactions.len(),
{
    if transactions.len() == 0 {
        seq![t]
    } else if date_le(transactions.last(), t) {
        transactions.push(t)
    } else {
        insert_transaction(transactions.drop_last(), t).push(transactions.last())
    }
}

/// The transactions in the order of their dates; transactions of one date
/// keep the order they came in.
pub open spec fn sort_transactions(transactions: Seq<TransactionView>) -> Seq<TransactionView>
    decreases transactions.len(),
{
    if transactions.len() == 0 {
        Seq::empty()
    } else {
        insert_transaction(sort_transactions(transactions.drop_last()), transactions.last())
    }
}

/// Where `insert_transaction` puts a transaction: at the index `k` behind
/// which every date is later than its own, and before which the nearest is
/// not.
pub proof fn lemma_insert_transaction_at(
    transactions: Seq<TransactionView>,
    t: TransactionView,
    k: int,
)
    requires
        0 <= k <= transactions.len(),
        forall|j: int| k <= j < transactions.len() ==> !date_le(transactions[j], t),
        k == 0 || date_le(transactions[k - 1], t),
    ensures
        insert_transaction(transactions, t) == transactions.insert(k, t),
    decreases transactions.len(),
{
    if transactions.len() == 0 {
        assert(seq![t] =~= transactions.insert(k, t));
    } else if date_le(transactions.last(), t) {
        assert(k == transactions.len());
        assert(transactions.push(t) =~= transactions.insert(k, t));
    } else {
        lemma_insert_transaction_at(transactions.drop_last(), t, k);
        assert(transactions.drop_last().insert(k, t).push(transactions.last())
            =~= transactions.insert(k, t));
    }
}

/// Inserting keeps every transaction, adds the new one, and keeps the order
/// of the dates.
pub proof fn lemma_insert_transaction(transactions: Seq<TransactionView>, t: TransactionView)
    ensures
        insert_transaction(transactions, t).to_multiset() == transactions.to_multiset().insert(t),
        dates_ordered(transactions) ==> dates_ordered(insert_transaction(transactions, t)),
    decreases transactions.len(),
{
    broadcast use vstd::seq_lib::group_to_multiset_ensures;

    let out = insert_transaction(transactions, t);
    if transactions.len() == 0 {
        assert(transactions =~= Seq::<TransactionView>::empty());
        assert(out =~= Seq::<TransactionView>::empty().push(t));
    } else if date_le(transactions.last(), t) {
        if dates_ordered(transactions) {
            assert forall|i: int, j: int| 0 <= i < j < out.len() implies date_le(
                out[i],
                out[j],
            ) by {
                if j == transactions.len() && i < transactions.len() - 1 {
                    assert(date_le(transactions[i], transactions[transactions.len() - 1]));
                }
            }
        }
    } else {
        let head = transactions.drop_last();
        let last = transactions.last();
        lemma_insert_transaction(head, t);
        let inner = insert_transaction(head, t);
        assert(transactions =~= head.push(last));
        assert(out.to_multiset() =~= transactions.to_multiset().insert(t));
        if dates_ordered(transactions) {
            assert(dates_ordered(head)) by {
                assert forall|i: int, j: int| 0 <= i < j < head.len() implies date_le(
                    head[i],
                    head[j],
                ) by {
                    assert(head[i] == transactions[i] && head[j] == transactions[j]);
                }
            }
            assert forall|i: int| 0 <= i < inner.len() implies date_le(inner[i], last) by {
                assert(inner.to_multiset().count(inner[i]) > 0);
                if inner[i] != t {
                    assert(head.to_multiset().count(inner[i]) > 0);
                    let k = choose|k: int| 0 <= k < head.len() && head[k] == inner[i];
                    assert(transactions[k] == head[k]);
                    assert(date_le(transactions[k], transactions[transactions.len() - 1]));
                }
            }
            assert forall|i: int, j: int| 0 <= i < j < out.len() implies date_le(
                out[i],
                out[j],
            ) by {
                if j < inner.len() {
                    assert(out[i] == inner[i] && out[j] == inner[j]);
                } else {
                    assert(out[i] == inner[i]);
                }
            }
        }
    }
}

/// Sorting keeps every transaction and puts the dates in order.
pub proof fn lemma_sort_transactions(transactions: Seq<TransactionView>)
    ensures
        sort_transactions(transactions).to_multiset() == transactions.to_multiset(),
        dates_ordered(sort_transactions(transactions)),
    decreases transactions.len(),
{
    broadcast use vstd::seq_lib::group_to_multiset_ensures;

    if transactions.len() == 0 {
    } else {
        lemma_sort_transactions(transactions.drop_last());
        lemma_insert_transaction(
            sort_transactions(transactions.drop_last()),
            transactions.last(),
        );
        assert(transactions =~= transactions.drop_last().push(transactions.last()));
    }
}

/// Puts transactions in the order of their dates; transactions of one date
/// keep the order they came in.
pub fn sort_transaction_list(transactions: Vec<Transaction>) -> (sorted: Vec<Transaction>)
    ensures
        transaction_views(sorted@) == sort_transactions(transaction_views(transactions@)),
        dates_ordered(transaction_views(sorted@)),
        transaction_views(sorted@).to_multiset() == transaction_views(transactions@).to_multiset(),
{
    let ghost all = transaction_views(transactions@);
    let mut rest = transactions;
    let mut sorted: Vec<Transaction> = Vec::new();
    proof {
        assert(all.subrange(0, 0) =~= Seq::<TransactionView>::empty());
        assert(transaction_views(sorted@) =~= Seq::<TransactionView>::empty());
        assert(all.subrange(0, all.len() as int) =~= all);
    }
    while rest.len() > 0
        invariant
            rest.len() <= all.len(),
            transaction_views(rest@) == all.subrange(all.len() - rest.len(), all.len() as int),
            transaction_views(sorted@) == sort_transactions(
                all.subrange(0, all.len() - rest.len()),
            ),
        decreases rest.len(),
    {
        let ghost i = all.len() - rest.len();
        let ghost before_rest = transaction_views(rest@);
        let ghost old_rest = rest@;
        let t = rest.remove(0);
        proof {
            assert(t@ == before_rest[0]);
            assert(rest@.len() == old_rest.len() - 1);
            assert forall|j: int| 0 <= j < rest@.len() implies transaction_views(rest@)[j]
                == all.subrange(i + 1, all.len() as int)[j] by {
                assert(rest@[j] == old_rest[j + 1]);
                assert(before_rest[j + 1] == old_rest[j + 1]@);
            }
            assert(transaction_views(rest@) =~= all.subrange(i + 1, all.len() as int));
        }
        let mut k: usize = sorted.len();
        while k > 0 && !sorted[k - 1].date().not_after(&t.date())
            invariant
                k <= sorted.len(),
                forall|j: int| k <= j < sorted.len() ==> !date_le(sorted@[j]@, t@),
            decreases k,
        {
            k -= 1;
        }
        proof {
            let before = transaction_views(sorted@);
            let next = all.subrange(0, i + 1);
            lemma_insert_transaction_at(before, t@, k as int);
            assert(next.drop_last() =~= all.subrange(0, i));
            assert(next.last() == t@);
        }
        let ghost before = transaction_views(sorted@);
        let ghost added = t@;
        sorted.insert(k, t);
        proof {
            assert(transaction_views(sorted@) =~= before.insert(k as int, added));
        }
    }
    proof {
        assert(all.subrange(0, all.len() as int) =~= all);
        lemma_sort_transactions(all);
    }
    sorted
}

/// Records a new transaction in a ledger: makes it out of the given parts
/// and entries, with an identifier of its own, adds it to the transactions
/// and puts them in the order of their dates. Whatever the identifier, the
/// outcome is that of making the transaction with it.
pub fn new_transaction(
    transactions: Vec<Transaction>,
    date: Date,
    has_cleared: bool,
    description: String,
    entries: &[(String, Option<isize>)],
) -> (r: Result<Vec<Transaction>, Error>)
    ensures
        match r {
            Ok(ledger) => exists|id: u128|
                (#[trigger] constructed(
                    date@,
                    id,
                    has_cleared,
                    description@,
                    pair_views(entries@),
                )) matches Ok(t) && transaction_views(ledger@) == sort_transactions(
                    transaction_views(transactions@).push(t),
                ),
            Err(error) => forall|id: u128|
                #[trigger] constructed(date@, id, has_cleared, description@, pair_views(entries@))
                    == Err::<TransactionView, Fault>(error@),
        },
{
    let ghost before = transaction_views(transactions@);
    match Transaction::create(date, has_cleared, description, entries) {
        Err(error) => Err(error),
        Ok(t) => {
            let ghost made = t@;
            let mut ledger = transactions;
            ledger.push(t);
            proof {
                assert(transaction_views(ledger@) =~= before.push(made));
                assert(constructed(
                    date@,
                    made.id,
                    has_cleared,
                    description@,
                    pair_views(entries@),
                ) == Ok::<TransactionView, Fault>(made));
            }
            Ok(sort_transaction_list(ledger))
        },
    }
}

} // verus!
