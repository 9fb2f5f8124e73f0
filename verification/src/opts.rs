//! The options of the commands, as plain values: what is asked for when an
//! account is made, listed or edited, and when a transaction is recorded.

use crate::decimal::{is_digit, read_value, value_of_text};
use crate::error::{Error, Fault};
use vstd::prelude::*;
use vstd::utf8::encode_utf8;

verus! {

/// The kinds of account.
#[derive(Clone, Copy, Debug, PartialEq, Eq, Structural)]
pub enum AccountType {
    Asset,
    Equity,
    Expense,
    Liability,
    Revenue,
}

/// How often a transaction comes back.
#[derive(Clone, Copy, Debug, PartialEq, Eq, Structural)]
pub enum RecurringPeriod {
    OneTime,
    Weekly,
    BiWeekly,
    Monthly,
    Annually,
}

/// What `str::to_lowercase` makes of a text.
pub uninterp spec fn lowercase(text: Seq<char>) -> Seq<char>;

/// Puts a text in lower case. Wraps `str::to_lowercase`, which maps each
/// character as Unicode says, whatever the place the program runs in.
#[verifier::external_body]
pub(crate) fn lower(text: &str) -> (lowered: String)
    ensures
        lowered@ == lowercase(text@),
{
    text.to_lowercase()
}

/// The period that a word in lower case stands for.
pub open spec fn period_of(word: Seq<char>) -> Option<RecurringPeriod> {
    if word == "onetime"@ {
        Some(RecurringPeriod::OneTime)
    } else if word == "weekly"@ {
        Some(RecurringPeriod::Weekly)
    } else if word == "biweekly"@ {
        Some(RecurringPeriod::BiWeekly)
    } else if word == "monthly"@ {
        Some(RecurringPeriod::Monthly)
    } else if word == "annually"@ {
        Some(RecurringPeriod::Annually)
    } else {
        None
    }
}

/// Tells whether a text is the given word.
fn is_word(text: &String, word: &str) -> (r: bool)
    ensures
        r == (text@ == word@),
{
    let other = word.to_owned();
    text.eq(&other)
}

impl RecurringPeriod {
    /// The period that a word stands for, in whatever case it is written.
    pub fn from_word(s: &str) -> (r: Result<Self, Error>)
        ensures
            match r {
                Ok(period) => period_of(lowercase(s@)) == Some(period),
                Err(error) => period_of(lowercase(s@)) is None && error@ == Fault::RecurringPeriod(
                    s@,
                ),
            },
    {
        let word = lower(s);
        if is_word(&word, "onetime") {
            Ok(Self::OneTime)
        } else if is_word(&word, "weekly") {
            Ok(Self::Weekly)
        } else if is_word(&word, "biweekly") {
            Ok(Self::BiWeekly)
        } else if is_word(&word, "monthly") {
            Ok(Self::Monthly)
        } else if is_word(&word, "annually") {
            Ok(Self::Annually)
        } else {
            Err(Error::recurring_period(s))
        }
    }
}

impl std::str::FromStr for RecurringPeriod {
    type Err = Error;

    /// The period that a word stands for, in whatever case it is written;
    /// a word that stands for none is handed back in the failure.
    fn from_str(s: &str) -> (r: Result<Self, Error>)
        ensures
            match r {
                Ok(period) => period_of(lowercase(s@)) == Some(period),
                Err(error) => period_of(lowercase(s@)) is None && error@ == Fault::RecurringPeriod(
                    s@,
                ),
            },
    {
        RecurringPeriod::from_word(s)
    }
}

impl Default for RecurringPeriod {
    fn default() -> (period: Self)
        ensures
            period == RecurringPeriod::OneTime,
    {
        Self::OneTime
    }
}

/// What the ledger command is asked to do.
#[derive(Clone, Copy, Debug, PartialEq, Eq, Structural)]
pub enum LedgerCommands {
    /// Generate a new, empty ledger.
    New,
}

/// What the listing of accounts is asked to show.
#[derive(Clone, Copy, Debug, PartialEq, Eq, Structural)]
pub struct AccountsOpts {
    display_all: bool,
}

impl AccountsOpts {
    pub fn new(display_all: bool) -> (opts: Self)
        ensures
            opts.spec_display_all() == display_all,
    {
        Self { display_all }
    }

    pub closed spec fn spec_display_all(&self) -> bool {
        self.display_all
    }

    pub fn display_all(&self) -> (display_all: bool)
        ensures
            display_all == self.spec_display_all(),
    {
        self.display_all
    }
}

/// What the account command is asked to do.
#[derive(Debug)]
pub enum AccountOpts {
    /// Create a new account.
    NewAccount(NewAccountOpts),
    /// List all saved accounts.
    ListAccounts(ListAccountOpts),
    /// Edit an existing account.
    EditAccount(EditAccoutOpts),
}

/// The name and the kind of an account to create.
#[derive(Debug)]
pub struct NewAccountOpts {
    name: String,
    account_type: AccountType,
}

impl NewAccountOpts {
    pub fn new(name: String, account_type: AccountType) -> (opts: Self)
        ensures
            opts.spec_name() == name@,
            opts.spec_account_type() == account_type,
    {
        Self { name, account_type }
    }

    pub closed spec fn spec_name(&self) -> Seq<char> {
        self.name@
    }

    pub closed spec fn spec_account_type(&self) -> AccountType {
        self.account_type
    }

    pub fn name(&self) -> (name: String)
        ensures
            name@ == self.spec_name(),
    {
        self.name.clone()
    }

    pub fn account_type(&self) -> (account_type: AccountType)
        ensures
            account_type == self.spec_account_type(),
    {
        self.account_type
    }
}

/// The kind of account to list, or all kinds.
#[derive(Debug)]
pub struct ListAccountOpts {
    account_type: Option<AccountType>,
}

impl ListAccountOpts {
    pub fn new(account_type: Option<AccountType>) -> (opts: Self)
        ensures
            opts.spec_account_type() == account_type,
    {
        Self { account_type }
    }

    pub closed spec fn spec_account_type(&self) -> Option<AccountType> {
        self.account_type
    }

    pub fn account_type(&self) -> (account_type: Option<AccountType>)
        ensures
            account_type == self.spec_account_type(),
    {
        self.account_type
    }
}

/// The account to edit, with its new name and its new kind where they change.
#[derive(Debug)]
pub struct EditAccoutOpts {
    name: String,
    new_name: Option<String>,
    new_account_type: Option<AccountType>,
}

impl EditAccoutOpts {
    pub fn new(
        name: String,
        new_name: Option<String>,
        new_account_type: Option<AccountType>,
    ) -> (opts: Self)
        ensures
            opts.spec_name() == name@,
            opts.spec_new_name() == match new_name {
                Some(text) => Some(text@),
                None => None,
            },
            opts.spec_new_account_type() == new_account_type,
    {
        Self { name, new_name, new_account_type }
    }

    pub closed spec fn spec_name(&self) -> Seq<char> {
        self.name@
    }

    pub closed spec fn spec_new_name(&self) -> Option<Seq<char>> {
        match self.new_name {
            Some(text) => Some(text@),
            None => None,
        }
    }

    pub closed spec fn spec_new_account_type(&self) -> Option<AccountType> {
        self.new_account_type
    }

    pub fn name(&self) -> (name: &str)
        ensures
            name@ == self.spec_name(),
    {
        self.name.as_str()
    }

    pub fn new_name(&self) -> (new_name: Option<&str>)
        ensures
            match new_name {
                Some(text) => self.spec_new_name() == Some(text@),
                None => self.spec_new_name() is None,
            },
    {
        match &self.new_name {
            Some(text) => Some(text.as_str()),
            None => None,
        }
    }

    pub fn new_account_type(&self) -> (new_account_type: Option<AccountType>)
        ensures
            new_account_type == self.spec_new_account_type(),
    {
        self.new_account_type
    }
}

/// What is asked for when a transaction is recorded: the accounts, the value
/// of each as it was typed, and how often the transaction comes back. An
/// account without a value of its own counts as zero.
#[derive(Debug)]
pub struct NewTransactionOpts {
    accounts: Vec<String>,
    values: Vec<String>,
    recurring_period: RecurringPeriod,
}

/// The mathematical value of the options of a new transaction.
pub struct NewTransactionView {
    pub accounts: Seq<Seq<char>>,
    pub values: Seq<Seq<char>>,
    pub recurring_period: RecurringPeriod,
}

/// The texts of a sequence of strings.
pub open spec fn texts(strings: Seq<String>) -> Seq<Seq<char>> {
    Seq::new(strings.len(), |i: int| strings[i]@)
}

impl View for NewTransactionOpts {
    type V = NewTransactionView;

    closed spec fn view(&self) -> NewTransactionView {
        NewTransactionView {
            accounts: texts(self.accounts@),
            values: texts(self.values@),
            recurring_period: self.recurring_period,
        }
    }
}

/// The bytes of `s` that are a digit or a minus sign, in their order.
pub open spec fn signs_and_digits(s: Seq<u8>) -> Seq<u8>
    decreases s.len(),
{
    if s.len() == 0 {
        Seq::empty()
    } else if s.last() == 45 || is_digit(s.last()) {
        signs_and_digits(s.drop_last()).push(s.last())
    } else {
        signs_and_digits(s.drop_last())
    }
}

/// The value that a typed text stands for: the number that its digits and
/// minus signs denote, whatever stands between them.
pub open spec fn typed_value(text: Seq<char>) -> Option<int> {
    value_of_text(signs_and_digits(encode_utf8(text)))
}

/// The accounts with their values, in the order they were given. An account
/// beyond the last value has the value zero. `None` where a value that
/// belongs to an account is no number.
pub open spec fn typed_pairs(opts: NewTransactionView) -> Option<Seq<(Seq<char>, int)>> {
    if forall|i: int|
        0 <= i < opts.accounts.len() && i < opts.values.len() ==> typed_value(
            #[trigger] opts.values[i],
        ) is Some {
        Some(
            Seq::new(
                opts.accounts.len(),
                |i: int|
                    (
                        opts.accounts[i],
                        if i < opts.values.len() {
                            typed_value(opts.values[i]).unwrap()
                        } else {
                            0
                        },
                    ),
            ),
        )
    } else {
        None
    }
}

/// True when `i` is the index of the first value that belongs to an account
/// and is no number.
pub open spec fn bad_value(opts: NewTransactionView, i: int) -> bool {
    &&& 0 <= i < opts.accounts.len()
    &&& i < opts.values.len()
    &&& typed_value(opts.values[i]) is None
    &&& forall|j: int| 0 <= j < i ==> typed_value(#[trigger] opts.values[j]) is Some
}

/// Reads a typed text as a value.
pub fn read_typed_value(text: &str) -> (r: Option<isize>)
    ensures
        match r {
            Some(value) => typed_value(text@) == Some(value as int),
            None => typed_value(text@) is None,
        },
{
    let bytes = text.as_bytes();
    let mut kept: Vec<u8> = Vec::new();
    let mut i: usize = 0;
    proof {
        assert(bytes@.subrange(0, 0) =~= Seq::<u8>::empty());
    }
    while i < bytes.len()
        invariant
            i <= bytes.len(),
            kept@ == signs_and_digits(bytes@.subrange(0, i as int)),
        decreases bytes.len() - i,
    {
        proof {
            let next = bytes@.subrange(0, i + 1);
            assert(next.drop_last() =~= bytes@.subrange(0, i as int));
            assert(next.last() == bytes@[i as int]);
        }
        let b: u8 = bytes[i];
        if b == 45 || (48 <= b && b <= 57) {
            kept.push(b);
        }
        i += 1;
    }
    proof {
        assert(bytes@.subrange(0, i as int) =~= bytes@);
        assert(kept@.subrange(0, kept@.len() as int) =~= kept@);
    }
    read_value(kept.as_slice(), 0, kept.len())
}

impl NewTransactionOpts {
    pub fn new(accounts: Vec<String>, values: Vec<String>, recurring_period: RecurringPeriod) -> (opts:
        Self)
        ensures
            opts@ == (NewTransactionView {
                accounts: texts(accounts@),
                values: texts(values@),
                recurring_period,
            }),
    {
        Self { accounts, values, recurring_period }
    }

    pub fn recurring_period(&self) -> (period: RecurringPeriod)
        ensures
            period == self@.recurring_period,
    {
        self.recurring_period
    }

    /// The accounts with their values, in the order they were given.
    pub fn pairs(&self) -> (r: Result<Vec<(String, isize)>, Error>)
        ensures
            match r {
                Ok(pairs) => typed_pairs(self@) == Some(valued(pairs@)),
                Err(error) => typed_pairs(self@) is None && exists|i: int|
                    bad_value(self@, i) && error@ == Fault::InvalidEntryFormat(self@.values[i]),
            },
    {
        let mut pairs: Vec<(String, isize)> = Vec::new();
        let mut i: usize = 0;
        while i < self.accounts.len()
            invariant
                i <= self.accounts.len(),
                pairs@.len() == i,
                forall|j: int|
                    0 <= j < i && j < self.values.len() ==> typed_value(
                        #[trigger] self@.values[j],
                    ) is Some,
                forall|j: int|
                    0 <= j < i ==> (#[trigger] pairs@[j]).0@ == self@.accounts[j] && pairs@[j].1
                        == if j < self.values.len() {
                        typed_value(self@.values[j]).unwrap()
                    } else {
                        0
                    },
            decreases self.accounts.len() - i,
        {
            let value: isize = if i < self.values.len() {
                match read_typed_value(self.values[i].as_str()) {
                    Some(value) => value,
                    None => {
                        proof {
                            assert(bad_value(self@, i as int));
                        }
                        return Err(Error::invalid_entry_format(self.values[i].as_str()));
                    },
                }
            } else {
                0
            };
            pairs.push((self.accounts[i].clone(), value));
            i += 1;
        }
        proof {
            assert(typed_pairs(self@).unwrap() =~= valued(pairs@));
        }
        Ok(pairs)
    }
}

/// The mathematical values of pairs of an account and its value.
pub open spec fn valued(pairs: Seq<(String, isize)>) -> Seq<(Seq<char>, int)> {
    Seq::new(pairs.len(), |i: int| (pairs[i].0@, pairs[i].1 as int))
}

/// The pairs with a value above zero, in their order.
pub open spec fn debits_of(pairs: Seq<(Seq<char>, int)>) -> Seq<(Seq<char>, int)>
    decreases pairs.len(),
{
    if pairs.len() == 0 {
        Seq::empty()
    } else if pairs.last().1 > 0 {
        debits_of(pairs.drop_last()).push(pairs.last())
    } else {
        debits_of(pairs.drop_last())
    }
}

/// The pairs with a value below zero, in their order.
pub open spec fn credits_of(pairs: Seq<(Seq<char>, int)>) -> Seq<(Seq<char>, int)>
    decreases pairs.len(),
{
    if pairs.len() == 0 {
        Seq::empty()
    } else if pairs.last().1 < 0 {
        credits_of(pairs.drop_last()).push(pairs.last())
    } else {
        credits_of(pairs.drop_last())
    }
}

/// The number of pairs with the value zero.
pub open spec fn zero_count(pairs: Seq<(Seq<char>, int)>) -> nat
    decreases pairs.len(),
{
    if pairs.len() == 0 {
        0
    } else {
        zero_count(pairs.drop_last()) + if pairs.last().1 == 0 {
            1nat
        } else {
            0nat
        }
    }
}

/// The account of the last pair with the value zero; the empty name where
/// there is none.
pub open spec fn zero_account(pairs: Seq<(Seq<char>, int)>) -> Seq<char>
    decreases pairs.len(),
{
    if pairs.len() == 0 {
        Seq::empty()
    } else if pairs.last().1 == 0 {
        pairs.last().0
    } else {
        zero_account(pairs.drop_last())
    }
}

/// The sum of the magnitudes of the values: the debits less the credits.
pub open spec fn gap(pairs: Seq<(Seq<char>, int)>) -> int
    decreases pairs.len(),
{
    if pairs.len() == 0 {
        0
    } else {
        gap(pairs.drop_last()) + if pairs.last().1 < 0 {
            -pairs.last().1
        } else {
            pairs.last().1
        }
    }
}

/// The debits and the credits of the pairs. More than one account with the
/// value zero cannot be told apart from accounts without a value, and is
/// refused. A single such account takes, as a credit, what the debits exceed
/// the credits by, unless both are nothing; it is refused where the machine's
/// signed word cannot hold that credit.
pub open spec fn categorized(pairs: Seq<(Seq<char>, int)>) -> Result<
    (Seq<(Seq<char>, int)>, Seq<(Seq<char>, int)>),
    Fault,
> {
    if zero_count(pairs) > 1 {
        Err(Fault::UnbalancedTransactionEntries)
    } else if zero_count(pairs) == 0 || gap(pairs) == 0 {
        Ok((debits_of(pairs), credits_of(pairs)))
    } else if -gap(pairs) < isize::MIN {
        Err(Fault::UnbalancedTransactionEntries)
    } else {
        Ok((debits_of(pairs), credits_of(pairs).push((zero_account(pairs), -gap(pairs)))))
    }
}

/// Parts the pairs into debits and credits, and gives the one account
/// without a value what balances the others.
pub fn categorize(pairs: &[(String, isize)]) -> (r: Result<
    (Vec<(String, isize)>, Vec<(String, isize)>),
    Error,
>)
    ensures
        match r {
            Ok((debits, credits)) => categorized(valued(pairs@)) == Ok::<
                (Seq<(Seq<char>, int)>, Seq<(Seq<char>, int)>),
                Fault,
            >((valued(debits@), valued(credits@))),
            Err(error) => categorized(valued(pairs@)) == Err::<
                (Seq<(Seq<char>, int)>, Seq<(Seq<char>, int)>),
                Fault,
            >(error@),
        },
{
    let ghost all = valued(pairs@);
    let mut debits: Vec<(String, isize)> = Vec::new();
    let mut credits: Vec<(String, isize)> = Vec::new();
    let mut zeros: usize = 0;
    let mut open_account: String = String::new();
    let mut total: i128 = 0;
    let mut i: usize = 0;
    proof {
        assert(all.subrange(0, 0) =~= Seq::<(Seq<char>, int)>::empty());
        assert(valued(debits@) =~= Seq::<(Seq<char>, int)>::empty());
        assert(valued(credits@) =~= Seq::<(Seq<char>, int)>::empty());
    }
    while i < pairs.len()
        invariant
            i <= pairs.len(),
            all == valued(pairs@),
            valued(debits@) == debits_of(all.subrange(0, i as int)),
            valued(credits@) == credits_of(all.subrange(0, i as int)),
            zeros == zero_count(all.subrange(0, i as int)),
            zeros <= i,
            open_account@ == zero_account(all.subrange(0, i as int)),
            total == gap(all.subrange(0, i as int)),
            0 <= total <= i * 0x8000_0000_0000_0000,
        decreases pairs.len() - i,
    {
        proof {
            let next = all.subrange(0, i + 1);
            assert(next.drop_last() =~= all.subrange(0, i as int));
            assert(next.last() == all[i as int]);
        }
        let value: isize = pairs[i].1;
        let ghost old_debits = valued(debits@);
        let ghost old_credits = valued(credits@);
        if value > 0 {
            debits.push((pairs[i].0.clone(), value));
            total = total + value as i128;
            proof {
                assert(valued(debits@) =~= old_debits.push(all[i as int]));
            }
        } else if value < 0 {
            credits.push((pairs[i].0.clone(), value));
            total = total - value as i128;
            proof {
                assert(valued(credits@) =~= old_credits.push(all[i as int]));
            }
        } else {
            zeros = zeros + 1;
            open_account = pairs[i].0.clone();
        }
        i += 1;
    }
    proof {
        assert(all.subrange(0, i as int) =~= all);
    }
    if zeros > 1 {
        return Err(Error::unbalanced_transaction_entries());
    }
    if zeros == 0 || total == 0 {
        return Ok((debits, credits));
    }
    if -total < isize::MIN as i128 {
        return Err(Error::unbalanced_transaction_entries());
    }
    let ghost old_credits = valued(credits@);
    let inferred: isize = (-total) as isize;
    credits.push((open_account, inferred));
    proof {
        assert(valued(credits@) =~= old_credits.push((zero_account(all), -gap(all))));
    }
    Ok((debits, credits))
}

impl NewTransactionOpts {
    /// The debits and the credits that the options ask for: the accounts with
    /// a value above zero and those with a value below, with the one account
    /// without a value among the credits where it takes what balances the
    /// others.
    pub fn categorize_accounts_and_values(&self) -> (r: Result<
        (Vec<(String, isize)>, Vec<(String, isize)>),
        Error,
    >)
        ensures
            match r {
                Ok((debits, credits)) => typed_pairs(self@) is Some && categorized(
                    typed_pairs(self@).unwrap(),
                ) == Ok::<(Seq<(Seq<char>, int)>, Seq<(Seq<char>, int)>), Fault>(
                    (valued(debits@), valued(credits@)),
                ),
                Err(error) => match typed_pairs(self@) {
                    Some(pairs) => categorized(pairs) == Err::<
                        (Seq<(Seq<char>, int)>, Seq<(Seq<char>, int)>),
                        Fault,
                    >(error@),
                    None => exists|i: int|
                        bad_value(self@, i) && error@ == Fault::InvalidEntryFormat(
                            self@.values[i],
                        ),
                },
            },
    {
        match self.pairs() {
            Err(error) => Err(error),
            Ok(pairs) => categorize(pairs.as_slice()),
        }
    }
}

} // verus!
