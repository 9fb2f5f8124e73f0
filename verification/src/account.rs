//! Accounts and their totals: the reconciliation of a journal.

use crate::entry::{
    account_le, entries_ordered, entry_views, insert_entry, lemma_sort_entries, sort_entries,
    sort_entry_list, Entry, EntryView,
};
use crate::journal::transaction_views;
use crate::text::{lemma_lex_antisymmetric, lex_le};
use crate::transaction::{Transaction, TransactionView};
use vstd::prelude::*;
use vstd::utf8::{encode_utf8, encode_utf8_decode_utf8};

verus! {

/// The mathematical value of an account: its name and the total of its
/// entries.
pub struct AccountView {
    pub name: Seq<char>,
    pub value: int,
}

/// An account with the total of the values entered for it.
#[derive(Debug, Default, PartialEq, Eq)]
pub struct Account {
    name: String,
    value: i128,
}

impl View for Account {
    type V = AccountView;

    closed spec fn view(&self) -> AccountView {
        AccountView { name: self.name@, value: self.value as int }
    }
}

/// The values of a sequence of accounts.
pub open spec fn account_views(accounts: Seq<Account>) -> Seq<AccountView> {
    Seq::new(accounts.len(), |i: int| accounts[i]@)
}

/// The entries of all the transactions, in their order.
pub open spec fn all_entries(transactions: Seq<TransactionView>) -> Seq<EntryView>
    decreases transactions.len(),
{
    if transactions.len() == 0 {
        Seq::empty()
    } else {
        all_entries(transactions.drop_last()) + transactions.last().entries
    }
}

/// The sum of the values of the entries for the account `name`.
pub open spec fn account_total(entries: Seq<EntryView>, name: Seq<char>) -> int
    decreases entries.len(),
{
    if entries.len() == 0 {
        0
    } else {
        account_total(entries.drop_last(), name) + if entries.last().account == name {
            entries.last().value
        } else {
            0
        }
    }
}

/// True when some entry is for the account `name`.
pub open spec fn mentions(entries: Seq<EntryView>, name: Seq<char>) -> bool {
    exists|k: int| 0 <= k < entries.len() && (#[trigger] entries[k]).account == name
}

/// The name `a` comes strictly before `b` in the lexicographic order of
/// their bytes.
pub open spec fn name_lt(a: Seq<char>, b: Seq<char>) -> bool {
    lex_le(encode_utf8(a), encode_utf8(b)) && a != b
}

/// True when `accounts` is the reconciliation of `entries`: one account for
/// each name among the entries and no other, in the ascending order of the
/// names, each with the sum of the values entered for it.
pub open spec fn reconciles(accounts: Seq<AccountView>, entries: Seq<EntryView>) -> bool {
    &&& forall|i: int, j: int|
        0 <= i < j < accounts.len() ==> name_lt(
            (#[trigger] accounts[i]).name,
            (#[trigger] accounts[j]).name,
        )
    &&& forall|i: int|
        0 <= i < accounts.len() ==> mentions(entries, (#[trigger] accounts[i]).name)
            && accounts[i].value == account_total(entries, accounts[i].name)
    &&& forall|k: int|
        0 <= k < entries.len() ==> named(accounts, (#[trigger] entries[k]).account)
}

/// True when some account has the name `name`.
pub open spec fn named(accounts: Seq<AccountView>, name: Seq<char>) -> bool {
    exists|i: int| 0 <= i < accounts.len() && (#[trigger] accounts[i]).name == name
}

/// Names with the same bytes are the same name.
pub proof fn lemma_name_of_bytes(a: Seq<char>, b: Seq<char>)
    requires
        encode_utf8(a) == encode_utf8(b),
    ensures
        a == b,
{
    encode_utf8_decode_utf8(a);
    encode_utf8_decode_utf8(b);
}

/// The total of an account grows by the value of an entry added for it, and
/// by nothing for an entry of another account.
pub proof fn lemma_account_total_push(entries: Seq<EntryView>, entry: EntryView, name: Seq<char>)
    ensures
        account_total(entries.push(entry), name) == account_total(entries, name) + if entry.account
            == name {
            entry.value
        } else {
            0
        },
{
    assert(entries.push(entry).drop_last() =~= entries);
}

/// Inserting an entry in its place changes the total of an account as adding
/// it at the end does.
pub proof fn lemma_account_total_insert(entries: Seq<EntryView>, entry: EntryView, name: Seq<char>)
    ensures
        account_total(insert_entry(entries, entry), name) == account_total(entries, name)
            + if entry.account == name {
            entry.value
        } else {
            0
        },
    decreases entries.len(),
{
    if entries.len() == 0 {
        assert(seq![entry] =~= entries.push(entry));
        lemma_account_total_push(entries, entry, name);
    } else if account_le(entries.last(), entry) {
        lemma_account_total_push(entries, entry, name);
    } else {
        lemma_account_total_insert(entries.drop_last(), entry, name);
        lemma_account_total_push(insert_entry(entries.drop_last(), entry), entries.last(), name);
    }
}

/// Sorting the entries leaves the total of every account as it is.
pub proof fn lemma_account_total_sorted(entries: Seq<EntryView>, name: Seq<char>)
    ensures
        account_total(sort_entries(entries), name) == account_total(entries, name),
    decreases entries.len(),
{
    if entries.len() > 0 {
        lemma_account_total_sorted(entries.drop_last(), name);
        lemma_account_total_insert(sort_entries(entries.drop_last()), entries.last(), name);
    }
}

/// Sorting the entries leaves the accounts that they mention as they are.
pub proof fn lemma_mentions_sorted(entries: Seq<EntryView>, name: Seq<char>)
    ensures
        mentions(sort_entries(entries), name) == mentions(entries, name),
{
    broadcast use vstd::seq_lib::group_to_multiset_ensures;

    let sorted = sort_entries(entries);
    lemma_sort_entries(entries);
    if mentions(sorted, name) {
        let k = choose|k: int| 0 <= k < sorted.len() && (#[trigger] sorted[k]).account == name;
        assert(sorted.to_multiset().count(sorted[k]) > 0);
        assert(entries.to_multiset().count(sorted[k]) > 0);
        assert(entries.contains(sorted[k]));
        let m = choose|m: int| 0 <= m < entries.len() && entries[m] == sorted[k];
        assert(entries[m].account == name);
    }
    if mentions(entries, name) {
        let k = choose|k: int| 0 <= k < entries.len() && (#[trigger] entries[k]).account == name;
        assert(entries.to_multiset().count(entries[k]) > 0);
        assert(sorted.to_multiset().count(entries[k]) > 0);
        assert(sorted.contains(entries[k]));
        let m = choose|m: int| 0 <= m < sorted.len() && sorted[m] == entries[k];
        assert(sorted[m].account == name);
    }
}

/// The reconciliation of the sorted entries is the reconciliation of the
/// entries.
pub proof fn lemma_reconciles_sorted(accounts: Seq<AccountView>, entries: Seq<EntryView>)
    requires
        reconciles(accounts, sort_entries(entries)),
    ensures
        reconciles(accounts, entries),
{
    broadcast use vstd::seq_lib::group_to_multiset_ensures;

    let sorted = sort_entries(entries);
    lemma_sort_entries(entries);
    assert forall|i: int| 0 <= i < accounts.len() implies mentions(
        entries,
        (#[trigger] accounts[i]).name,
    ) && accounts[i].value == account_total(entries, accounts[i].name) by {
        lemma_mentions_sorted(entries, accounts[i].name);
        lemma_account_total_sorted(entries, accounts[i].name);
    }
    assert forall|k: int| 0 <= k < entries.len() implies named(
        accounts,
        (#[trigger] entries[k]).account,
    ) by {
        assert(entries.to_multiset().count(entries[k]) > 0);
        assert(sorted.to_multiset().count(entries[k]) > 0);
        assert(sorted.contains(entries[k]));
        let m = choose|m: int| 0 <= m < sorted.len() && sorted[m] == entries[k];
        assert(named(accounts, sorted[m].account));
    }
}

/// Tells whether two texts are the same.
pub fn same_text(a: &String, b: &String) -> (r: bool)
    ensures
        r == (a@ == b@),
{
    a.eq(b)
}

impl Account {
    /// An account of the given name and total.
    pub fn new(name: String, value: i128) -> (account: Self)
        ensures
            account@ == (AccountView { name: name@, value: value as int }),
    {
        Self { name, value }
    }

    /// The account of a run of entries: the name is the account of the first
    /// entry, and the value the sum of the values of them all.
    pub fn from_entries(entries: &[Entry]) -> (account: Self)
        ensures
            account@.name == (if entries@.len() == 0 {
                Seq::<char>::empty()
            } else {
                entries@[0]@.account
            }),
            account@.value == crate::entry::entries_total(entry_views(entries@)),
    {
        let ghost views = entry_views(entries@);
        let mut total: i128 = 0;
        let mut i: usize = 0;
        proof {
            assert(views.subrange(0, 0) =~= Seq::<EntryView>::empty());
        }
        while i < entries.len()
            invariant
                i <= entries.len(),
                views == entry_views(entries@),
                total == crate::entry::entries_total(views.subrange(0, i as int)),
                -(i * 0x8000_0000_0000_0000) <= total <= i * 0x8000_0000_0000_0000,
            decreases entries.len() - i,
        {
            proof {
                let next = views.subrange(0, i + 1);
                assert(next.drop_last() =~= views.subrange(0, i as int));
                assert(next.last() == entries@[i as int]@);
            }
            total = total + entries[i].value() as i128;
            i += 1;
        }
        proof {
            assert(views.subrange(0, i as int) =~= views);
        }
        let name = if entries.len() == 0 {
            String::new()
        } else {
            entries[0].account().clone()
        };
        Self { name, value: total }
    }

    pub fn name(&self) -> (name: &String)
        ensures
            name@ == self@.name,
    {
        &self.name
    }

    pub fn value(&self) -> (value: i128)
        ensures
            value == self@.value,
    {
        self.value
    }
}

/// Gathers the entries of all the transactions.
pub fn gather_entries(transactions: &[Transaction]) -> (all: Vec<Entry>)
    ensures
        entry_views(all@) == all_entries(transaction_views(transactions@)),
{
    let ghost views = transaction_views(transactions@);
    let mut all: Vec<Entry> = Vec::new();
    let mut i: usize = 0;
    proof {
        assert(views.subrange(0, 0) =~= Seq::<TransactionView>::empty());
        assert(entry_views(all@) =~= Seq::<EntryView>::empty());
    }
    while i < transactions.len()
        invariant
            i <= transactions.len(),
            views == transaction_views(transactions@),
            entry_views(all@) == all_entries(views.subrange(0, i as int)),
        decreases transactions.len() - i,
    {
        let entries = transactions[i].entries();
        let ghost done = entry_views(all@);
        let mut j: usize = 0;
        proof {
            assert(done + entry_views(entries@).subrange(0, 0) =~= done);
        }
        while j < entries.len()
            invariant
                j <= entries.len(),
                entry_views(all@) == done + entry_views(entries@).subrange(0, j as int),
            decreases entries.len() - j,
        {
            let ghost before = entry_views(all@);
            all.push(entries[j].duplicate());
            proof {
                assert(entry_views(all@) =~= before.push(entries@[j as int]@));
                assert(before.push(entries@[j as int]@) =~= done + entry_views(
                    entries@,
                ).subrange(0, j + 1));
            }
            j += 1;
        }
        proof {
            let next = views.subrange(0, i + 1);
            assert(next.drop_last() =~= views.subrange(0, i as int));
            assert(next.last() == transactions@[i as int]@);
            assert(entry_views(entries@).subrange(0, j as int) =~= entry_views(entries@));
        }
        i += 1;
    }
    proof {
        assert(views.subrange(0, i as int) =~= views);
    }
    all
}

/// Totals entries that come in the order of their accounts: one account for
/// each run of entries of one account.
fn total_runs(sorted: &[Entry]) -> (accounts: Vec<Account>)
    requires
        entries_ordered(entry_views(sorted@)),
    ensures
        reconciles(account_views(accounts@), entry_views(sorted@)),
{
    let ghost entries = entry_views(sorted@);
    let mut accounts: Vec<Account> = Vec::new();
    let mut i: usize = 0;
    proof {
        assert(entries.subrange(0, 0) =~= Seq::<EntryView>::empty());
    }
    while i < sorted.len()
        invariant
            i <= sorted.len(),
            entries == entry_views(sorted@),
            entries_ordered(entries),
            reconciles(account_views(accounts@), entries.subrange(0, i as int)),
            forall|a: int, k: int|
                0 <= a < accounts.len() && i <= k < entries.len() ==> name_lt(
                    (#[trigger] accounts@[a])@.name,
                    (#[trigger] entries[k]).account,
                ),
        decreases sorted.len() - i,
    {
        let start: usize = i;
        let name = sorted[i].account().clone();
        let mut total: i128 = 0;
        let ghost before = account_views(accounts@);
        let ghost seen = entries.subrange(0, start as int);
        proof {
            assert(entries[start as int] == sorted@[start as int]@);
            // no earlier entry is for this account
            assert forall|k: int| 0 <= k < seen.len() implies (#[trigger] seen[k]).account
                != name@ by {
                assert(named(before, seen[k].account));
                let a = choose|a: int|
                    0 <= a < before.len() && (#[trigger] before[a]).name == seen[k].account;
                assert(name_lt(accounts@[a]@.name, entries[start as int].account));
            }
            lemma_absent_total(seen, name@);
        }
        while i < sorted.len() && same_text(sorted[i].account(), &name)
            invariant
                start <= i <= sorted.len(),
                entries == entry_views(sorted@),
                forall|k: int| start <= k < i ==> (#[trigger] entries[k]).account == name@,
                total == account_total(entries.subrange(0, i as int), name@),
                -((i - start) * 0x8000_0000_0000_0000) <= total <= (i - start)
                    * 0x8000_0000_0000_0000,
                forall|a: int|
                    0 <= a < before.len() ==> (#[trigger] before[a]).value == account_total(
                        entries.subrange(0, i as int),
                        before[a].name,
                    ),
                forall|a: int| 0 <= a < before.len() ==> (#[trigger] before[a]).name != name@,
                before == account_views(accounts@),
            decreases sorted.len() - i,
        {
            proof {
                let next = entries.subrange(0, i + 1);
                assert(next =~= entries.subrange(0, i as int).push(entries[i as int]));
                assert(entries[i as int] == sorted@[i as int]@);
                lemma_account_total_push(entries.subrange(0, i as int), entries[i as int], name@);
                assert forall|a: int| 0 <= a < before.len() implies (#[trigger] before[a]).value
                    == account_total(next, before[a].name) by {
                    lemma_account_total_push(
                        entries.subrange(0, i as int),
                        entries[i as int],
                        before[a].name,
                    );
                }
            }
            total = total + sorted[i].value() as i128;
            i += 1;
        }
        proof {
            assert(i > start) by {
                assert(entries[start as int] == sorted@[start as int]@);
            }
        }
        accounts.push(Account { name, value: total });
        proof {
            let after = account_views(accounts@);
            let prefix = entries.subrange(0, i as int);
            let added = after[after.len() - 1];
            assert(after =~= before.push(added));
            assert(added.name == entries[start as int].account);
            assert(prefix[start as int] == entries[start as int]);
            // the names that follow come strictly after this one
            assert forall|k: int| i <= k < entries.len() implies name_lt(
                added.name,
                (#[trigger] entries[k]).account,
            ) by {
                assert(account_le(entries[start as int], entries[k]));
                if entries[k].account == added.name {
                    assert(entries[i as int] == sorted@[i as int]@);
                    if i < k {
                        assert(account_le(entries[i as int], entries[k]));
                    }
                    assert(account_le(entries[start as int], entries[i as int]));
                    lemma_lex_antisymmetric(
                        encode_utf8(entries[start as int].account),
                        encode_utf8(entries[i as int].account),
                    );
                    lemma_name_of_bytes(entries[start as int].account, entries[i as int].account);
                }
            }
            assert forall|a: int, k: int|
                0 <= a < accounts.len() && i <= k < entries.len() implies name_lt(
                (#[trigger] accounts@[a])@.name,
                (#[trigger] entries[k]).account,
            ) by {
                if a < before.len() {
                    assert(accounts@[a]@ == before[a]);
                }
            }
            assert forall|a: int, b: int| 0 <= a < b < after.len() implies name_lt(
                (#[trigger] after[a]).name,
                (#[trigger] after[b]).name,
            ) by {
                if b == after.len() - 1 {
                    assert(after[a] == before[a]);
                    assert(name_lt(accounts@[a]@.name, entries[start as int].account));
                } else {
                    assert(after[a] == before[a] && after[b] == before[b]);
                }
            }
            assert forall|a: int| 0 <= a < after.len() implies mentions(
                prefix,
                (#[trigger] after[a]).name,
            ) && after[a].value == account_total(prefix, after[a].name) by {
                if a < before.len() {
                    assert(after[a] == before[a]);
                    assert(mentions(seen, before[a].name));
                    let k = choose|k: int|
                        0 <= k < seen.len() && (#[trigger] seen[k]).account == before[a].name;
                    assert(prefix[k] == seen[k]);
                } else {
                }
            }
            assert forall|k: int| 0 <= k < prefix.len() implies named(
                after,
                (#[trigger] prefix[k]).account,
            ) by {
                if k < start {
                    assert(prefix[k] == seen[k]);
                    assert(named(before, seen[k].account));
                    let a = choose|a: int|
                        0 <= a < before.len() && (#[trigger] before[a]).name == seen[k].account;
                    assert(after[a] == before[a]);
                } else {
                    assert(prefix[k] == entries[k]);
                    assert(after[after.len() - 1].name == prefix[k].account);
                }
            }
        }
    }
    proof {
        assert(entries.subrange(0, i as int) =~= entries);
    }
    accounts
}

/// An account that no entry is for has the total zero.
pub proof fn lemma_absent_total(entries: Seq<EntryView>, name: Seq<char>)
    requires
        forall|k: int| 0 <= k < entries.len() ==> (#[trigger] entries[k]).account != name,
    ensures
        account_total(entries, name) == 0,
    decreases entries.len(),
{
    if entries.len() > 0 {
        let head = entries.drop_last();
        assert forall|k: int| 0 <= k < head.len() implies (#[trigger] head[k]).account != name by {
            assert(head[k] == entries[k]);
        }
        lemma_absent_total(head, name);
    }
}

/// Reconciles the accounts of a journal: the total of the entries of each
/// account, in the ascending order of the names of the accounts.
pub fn reconcile_accounts(transactions: &[Transaction]) -> (accounts: Vec<Account>)
    ensures
        reconciles(account_views(accounts@), all_entries(transaction_views(transactions@))),
{
    let all = gather_entries(transactions);
    let sorted = sort_entry_list(all.as_slice());
    proof {
        lemma_sort_entries(entry_views(all@));
    }
    let accounts = total_runs(sorted.as_slice());
    proof {
        lemma_reconciles_sorted(account_views(accounts@), entry_views(all@));
    }
    accounts
}

} // verus!
