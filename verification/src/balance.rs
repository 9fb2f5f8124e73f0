//! The balancing engine: it completes a set of account and value pairs with
//! the one value that may be left out, and checks that the set sums to zero.

use crate::entry::{
    entries_total, entry_views, lemma_sort_entries, sort_entries, sort_entry_list, Entry,
    EntryView,
};
use crate::error::{Error, Fault};
use vstd::prelude::*;

verus! {

/// The account that takes the other side of a one-sided transaction.
pub open spec fn offset_account() -> Seq<char> {
    "Equities:Starting Balances"@
}

/// The mathematical values of pairs of an account and a value that may be
/// left out.
pub open spec fn pair_views(pairs: Seq<(String, Option<isize>)>) -> Seq<(Seq<char>, Option<int>)> {
    Seq::new(
        pairs.len(),
        |i: int|
            (
                pairs[i].0@,
                match pairs[i].1 {
                    Some(value) => Some(value as int),
                    None => None,
                },
            ),
    )
}

/// The number of pairs whose value is left out.
pub open spec fn unset_count(pairs: Seq<(Seq<char>, Option<int>)>) -> nat
    decreases pairs.len(),
{
    if pairs.len() == 0 {
        0
    } else {
        unset_count(pairs.drop_last()) + if pairs.last().1 is None {
            1nat
        } else {
            0nat
        }
    }
}

/// The sum of the values that are given.
pub open spec fn concrete_total(pairs: Seq<(Seq<char>, Option<int>)>) -> int
    decreases pairs.len(),
{
    if pairs.len() == 0 {
        0
    } else {
        concrete_total(pairs.drop_last()) + match pairs.last().1 {
            Some(value) => value,
            None => 0,
        }
    }
}

/// The pairs as they are balanced: left alone where there are two or more and
/// each has its value, and followed otherwise by a pair for the offset account
/// with its value left out.
pub open spec fn with_offset(pairs: Seq<(Seq<char>, Option<int>)>) -> Seq<(Seq<char>, Option<int>)> {
    if pairs.len() >= 2 && unset_count(pairs) == 0 {
        pairs
    } else {
        pairs.push((offset_account(), None))
    }
}

/// The entries of the pairs, with `fill` as the value of each pair that has
/// none.
pub open spec fn resolved(pairs: Seq<(Seq<char>, Option<int>)>, fill: int) -> Seq<EntryView> {
    Seq::new(
        pairs.len(),
        |i: int|
            EntryView {
                account: pairs[i].0,
                value: match pairs[i].1 {
                    Some(value) => value,
                    None => fill,
                },
            },
    )
}

/// What balancing makes of the pairs. It fails where more than one value is
/// left out once the offset pair is there, where the given values do not sum
/// to zero and none is left out, and where the value that would balance them
/// does not fit the machine's signed word. Otherwise the value left out is
/// the negated sum of the others, and the entries come in the order of their
/// accounts.
pub open spec fn balanced_entries(pairs: Seq<(Seq<char>, Option<int>)>) -> Result<
    Seq<EntryView>,
    Fault,
> {
    let all = with_offset(pairs);
    let total = concrete_total(all);
    if unset_count(all) > 1 {
        Err(Fault::UnbalancedTransactionEntries)
    } else if unset_count(all) == 0 && total != 0 {
        Err(Fault::UnbalancedTransactionEntries)
    } else if !(isize::MIN <= -total <= isize::MAX) {
        Err(Fault::UnbalancedTransactionEntries)
    } else {
        Ok(sort_entries(resolved(all, -total)))
    }
}

/// The total of the resolved entries is the sum of the given values and of
/// the fill, once for each value left out.
pub proof fn lemma_resolved_total(pairs: Seq<(Seq<char>, Option<int>)>, fill: int)
    ensures
        entries_total(resolved(pairs, fill)) == concrete_total(pairs) + unset_count(pairs) * fill,
    decreases pairs.len(),
{
    if pairs.len() == 0 {
        assert(0 * fill == 0);
    } else {
        let head = pairs.drop_last();
        lemma_resolved_total(head, fill);
        assert(resolved(pairs, fill).drop_last() =~= resolved(head, fill));
        assert((unset_count(head) + 1) * fill == unset_count(head) * fill + fill)
            by (nonlinear_arith);
        assert((unset_count(head) + 0) * fill == unset_count(head) * fill);
    }
}

/// Whatever balancing returns sums to zero.
pub proof fn lemma_balanced_total(pairs: Seq<(Seq<char>, Option<int>)>)
    ensures
        balanced_entries(pairs) matches Ok(entries) ==> entries_total(entries) == 0,
{
    let all = with_offset(pairs);
    let total = concrete_total(all);
    lemma_resolved_total(all, -total);
    lemma_sort_entries(resolved(all, -total));
    if unset_count(all) == 1 {
        assert(1 * (-total) == -total);
    } else {
        assert(0 * (-total) == 0);
    }
}

/// Pairs of which two or more lack their value cannot be balanced.
pub proof fn lemma_single_inference(pairs: Seq<(Seq<char>, Option<int>)>)
    requires
        unset_count(pairs) >= 2,
    ensures
        balanced_entries(pairs) == Err::<Seq<EntryView>, Fault>(
            Fault::UnbalancedTransactionEntries,
        ),
{
    let extended = pairs.push((offset_account(), None));
    assert(extended.drop_last() =~= pairs);
}

/// The least magnitude that a signed word cannot hold as a positive number.
spec fn word_bound() -> int {
    isize::MAX + 1
}

/// Completes and checks the values of the entries of a transaction, and puts
/// the entries in the order of their accounts.
pub fn validate_and_normalize_entries(entries: &[(String, Option<isize>)]) -> (r: Result<
    Vec<Entry>,
    Error,
>)
    ensures
        match r {
            Ok(balanced) => balanced_entries(pair_views(entries@)) == Ok::<Seq<EntryView>, Fault>(
                entry_views(balanced@),
            ) && entries_total(entry_views(balanced@)) == 0,
            Err(error) => balanced_entries(pair_views(entries@)) == Err::<Seq<EntryView>, Fault>(
                error@,
            ) && error@ == Fault::UnbalancedTransactionEntries,
        },
{
    let ghost pairs = pair_views(entries@);
    let mut unset: usize = 0;
    let mut total: i128 = 0;
    let mut i: usize = 0;
    proof {
        assert(pairs.subrange(0, 0) =~= Seq::<(Seq<char>, Option<int>)>::empty());
    }
    while i < entries.len()
        invariant
            i <= entries.len(),
            pairs == pair_views(entries@),
            unset <= i,
            unset == unset_count(pairs.subrange(0, i as int)),
            total == concrete_total(pairs.subrange(0, i as int)),
            -(i * word_bound()) <= total <= i * word_bound(),
        decreases entries.len() - i,
    {
        proof {
            let next = pairs.subrange(0, i + 1);
            assert(next.drop_last() =~= pairs.subrange(0, i as int));
            assert(next.last() == pairs[i as int]);
            assert((i + 1) * word_bound() == i * word_bound() + word_bound())
                by (nonlinear_arith);
            assert(i * word_bound() <= usize::MAX * word_bound()) by (nonlinear_arith)
                requires
                    i <= usize::MAX,
                    word_bound() >= 0,
            ;
            assert(usize::MAX * word_bound() <= 0xffff_ffff_ffff_ffff * 0x8000_0000_0000_0000)
                by (nonlinear_arith)
                requires
                    usize::MAX <= 0xffff_ffff_ffff_ffff,
                    0 <= word_bound() <= 0x8000_0000_0000_0000,
            ;
        }
        match entries[i].1 {
            Some(value) => {
                total = total + value as i128;
            },
            None => {
                unset = unset + 1;
            },
        }
        i += 1;
    }
    proof {
        assert(pairs.subrange(0, i as int) =~= pairs);
        let extended = pairs.push((offset_account(), None));
        assert(extended.drop_last() =~= pairs);
        lemma_balanced_total(pairs);
    }
    let offset: bool = !(entries.len() >= 2 && unset == 0);
    if offset && unset > 0 {
        return Err(Error::unbalanced_transaction_entries());
    }
    if !offset && total != 0 {
        return Err(Error::unbalanced_transaction_entries());
    }
    if total < -(isize::MAX as i128) || total > -(isize::MIN as i128) {
        return Err(Error::unbalanced_transaction_entries());
    }
    let fill: isize = (-total) as isize;
    let ghost all = with_offset(pairs);
    let mut balanced: Vec<Entry> = Vec::new();
    let mut k: usize = 0;
    while k < entries.len()
        invariant
            k <= entries.len(),
            pairs == pair_views(entries@),
            unset_count(pairs) == 0,
            entry_views(balanced@) == resolved(pairs, fill as int).subrange(0, k as int),
        decreases entries.len() - k,
    {
        let ghost before = entry_views(balanced@);
        let value: isize = match entries[k].1 {
            Some(value) => value,
            None => fill,
        };
        balanced.push(Entry::new(entries[k].0.as_str(), value));
        proof {
            assert(entry_views(balanced@) =~= before.push(resolved(pairs, fill as int)[k as int]));
            assert(before.push(resolved(pairs, fill as int)[k as int]) =~= resolved(
                pairs,
                fill as int,
            ).subrange(0, k + 1));
        }
        k += 1;
    }
    proof {
        assert(resolved(pairs, fill as int).subrange(0, k as int) =~= resolved(
            pairs,
            fill as int,
        ));
    }
    if offset {
        let ghost before = entry_views(balanced@);
        balanced.push(Entry::new("Equities:Starting Balances", fill));
        proof {
            assert(entry_views(balanced@) =~= before.push(
                EntryView { account: offset_account(), value: fill as int },
            ));
            assert(entry_views(balanced@) =~= resolved(all, fill as int));
        }
    }
    Ok(sort_entry_list(balanced.as_slice()))
}

} // verus!
