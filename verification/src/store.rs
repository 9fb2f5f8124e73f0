//! The accounts that a ledger knows: their names and kinds, as the account
//! store holds them.

use crate::opts::{texts, AccountType};
use crate::validate::{contains_name, distinct};
use vstd::prelude::*;
use vstd::string::StringSliceAdditionalSpecFns;
use vstd::utf8::encode_utf8;

verus! {

/// The mathematical value of a stored account.
pub struct StoredAccountView {
    pub name: Seq<char>,
    pub account_type: AccountType,
}

/// An account of the store: its name and its kind.
#[derive(Clone, Debug, PartialEq, Eq)]
pub struct StoredAccount {
    name: String,
    account_type: AccountType,
}

impl View for StoredAccount {
    type V = StoredAccountView;

    closed spec fn view(&self) -> StoredAccountView {
        StoredAccountView { name: self.name@, account_type: self.account_type }
    }
}

/// The values of a sequence of stored accounts.
pub open spec fn stored_views(accounts: Seq<StoredAccount>) -> Seq<StoredAccountView> {
    Seq::new(accounts.len(), |i: int| accounts[i]@)
}

/// The names of a sequence of stored accounts.
pub open spec fn stored_names(accounts: Seq<StoredAccountView>) -> Seq<Seq<char>> {
    Seq::new(accounts.len(), |i: int| accounts[i].name)
}

/// The number of bytes of the word for a kind of account.
pub open spec fn label_len(account_type: AccountType) -> nat {
    match account_type {
        AccountType::Asset => 5,
        AccountType::Equity => 6,
        AccountType::Expense => 7,
        AccountType::Liability => 9,
        AccountType::Revenue => 7,
    }
}

impl AccountType {
    /// The word for this kind of account.
    pub fn label(&self) -> (word: &'static str)
        ensures
            word@ == match self {
                AccountType::Asset => "asset"@,
                AccountType::Equity => "equity"@,
                AccountType::Expense => "expense"@,
                AccountType::Liability => "liability"@,
                AccountType::Revenue => "revenue"@,
            },
    {
        match self {
            AccountType::Asset => "asset",
            AccountType::Equity => "equity",
            AccountType::Expense => "expense",
            AccountType::Liability => "liability",
            AccountType::Revenue => "revenue",
        }
    }

    /// The number of bytes of the word for this kind of account.
    pub fn len(&self) -> (n: usize)
        ensures
            n == label_len(*self),
    {
        match self {
            AccountType::Asset => 5,
            AccountType::Equity => 6,
            AccountType::Expense => 7,
            AccountType::Liability => 9,
            AccountType::Revenue => 7,
        }
    }

    /// Tells whether this kind is `other`.
    pub fn is(&self, other: &AccountType) -> (r: bool)
        ensures
            r == (*self == *other),
    {
        match (self, other) {
            (AccountType::Asset, AccountType::Asset) => true,
            (AccountType::Equity, AccountType::Equity) => true,
            (AccountType::Expense, AccountType::Expense) => true,
            (AccountType::Liability, AccountType::Liability) => true,
            (AccountType::Revenue, AccountType::Revenue) => true,
            _ => false,
        }
    }
}

impl StoredAccount {
    pub fn new(name: String, account_type: AccountType) -> (account: Self)
        ensures
            account@ == (StoredAccountView { name: name@, account_type }),
    {
        Self { name, account_type }
    }

    pub fn name(&self) -> (name: &String)
        ensures
            name@ == self@.name,
    {
        &self.name
    }

    pub fn account_type(&self) -> (account_type: AccountType)
        ensures
            account_type == self@.account_type,
    {
        self.account_type
    }

    /// An account equal to this one.
    pub fn duplicate(&self) -> (account: Self)
        ensures
            account@ == self@,
    {
        Self { name: self.name.clone(), account_type: self.account_type }
    }
}

/// The accounts of the kind `account_type`, in their order.
pub open spec fn of_type(accounts: Seq<StoredAccountView>, account_type: AccountType) -> Seq<
    StoredAccountView,
>
    decreases accounts.len(),
{
    if accounts.len() == 0 {
        Seq::empty()
    } else if accounts.last().account_type == account_type {
        of_type(accounts.drop_last(), account_type).push(accounts.last())
    } else {
        of_type(accounts.drop_last(), account_type)
    }
}

/// Keeps the accounts of one kind, in their order.
pub fn filter_accounts_by_account_type(accounts: Vec<StoredAccount>, account_type: &AccountType) -> (kept:
    Vec<StoredAccount>)
    ensures
        stored_views(kept@) == of_type(stored_views(accounts@), *account_type),
{
    let ghost all = stored_views(accounts@);
    let mut kept: Vec<StoredAccount> = Vec::new();
    let mut i: usize = 0;
    proof {
        assert(all.subrange(0, 0) =~= Seq::<StoredAccountView>::empty());
        assert(stored_views(kept@) =~= Seq::<StoredAccountView>::empty());
    }
    while i < accounts.len()
        invariant
            i <= accounts.len(),
            all == stored_views(accounts@),
            stored_views(kept@) == of_type(all.subrange(0, i as int), *account_type),
        decreases accounts.len() - i,
    {
        proof {
            let next = all.subrange(0, i + 1);
            assert(next.drop_last() =~= all.subrange(0, i as int));
            assert(next.last() == accounts@[i as int]@);
        }
        if accounts[i].account_type().is(account_type) {
            let ghost before = stored_views(kept@);
            kept.push(accounts[i].duplicate());
            proof {
                assert(stored_views(kept@) =~= before.push(accounts@[i as int]@));
            }
        }
        i += 1;
    }
    proof {
        assert(all.subrange(0, i as int) =~= all);
    }
    kept
}

/// The names of the stored accounts, each once, in the order in which they
/// first occur.
pub fn load_saved_accounts(accounts: &[StoredAccount]) -> (names: Vec<String>)
    ensures
        texts(names@) == distinct(stored_names(stored_views(accounts@))),
{
    let ghost all = stored_names(stored_views(accounts@));
    let mut names: Vec<String> = Vec::new();
    let mut i: usize = 0;
    proof {
        assert(all.subrange(0, 0) =~= Seq::<Seq<char>>::empty());
        assert(texts(names@) =~= Seq::<Seq<char>>::empty());
    }
    while i < accounts.len()
        invariant
            i <= accounts.len(),
            all == stored_names(stored_views(accounts@)),
            texts(names@) == distinct(all.subrange(0, i as int)),
        decreases accounts.len() - i,
    {
        proof {
            let next = all.subrange(0, i + 1);
            assert(next.drop_last() =~= all.subrange(0, i as int));
            assert(next.last() == accounts@[i as int]@.name);
        }
        if !contains_name(names.as_slice(), accounts[i].name()) {
            let ghost before = texts(names@);
            names.push(accounts[i].name().clone());
            proof {
                assert(texts(names@) =~= before.push(accounts@[i as int]@.name));
            }
        }
        i += 1;
    }
    proof {
        assert(all.subrange(0, i as int) =~= all);
    }
    names
}

/// The width of the column of names: the bytes of the longest name among the
/// first `count` accounts, and four at the least, for the heading.
pub open spec fn name_width(accounts: Seq<StoredAccountView>, count: int) -> nat
    decreases count,
{
    if count <= 0 {
        4
    } else {
        let rest = name_width(accounts, count - 1);
        let own = encode_utf8(accounts[count - 1].name).len();
        if own > rest {
            own
        } else {
            rest
        }
    }
}

/// The width of the column of kinds: the bytes of the longest word for a kind
/// among the first `count` accounts, and four at the least, for the heading.
pub open spec fn type_width(accounts: Seq<StoredAccountView>, count: int) -> nat
    decreases count,
{
    if count <= 0 {
        4
    } else {
        let rest = type_width(accounts, count - 1);
        let own = label_len(accounts[count - 1].account_type);
        if own > rest {
            own
        } else {
            rest
        }
    }
}

/// The widths of the two columns of a table of accounts.
pub fn get_column_widths(accounts: &[StoredAccount]) -> (widths: (usize, usize))
    ensures
        widths.0 == name_width(stored_views(accounts@), accounts@.len() as int),
        widths.1 == type_width(stored_views(accounts@), accounts@.len() as int),
{
    let mut name_col: usize = 4;
    let mut type_col: usize = 4;
    let mut i: usize = 0;
    while i < accounts.len()
        invariant
            i <= accounts.len(),
            name_col == name_width(stored_views(accounts@), i as int),
            type_col == type_width(stored_views(accounts@), i as int),
        decreases accounts.len() - i,
    {
        let name = accounts[i].name().as_str();
        let own_name = name.as_bytes().len();
        let own_type = accounts[i].account_type().len();
        proof {
            assert(stored_views(accounts@)[i as int] == accounts@[i as int]@);
            assert(name.spec_bytes() == encode_utf8(accounts@[i as int]@.name));
        }
        if own_name > name_col {
            name_col = own_name;
        }
        if own_type > type_col {
            type_col = own_type;
        }
        i += 1;
    }
    (name_col, type_col)
}

} // verus!
