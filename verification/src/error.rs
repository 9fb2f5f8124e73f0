//! The failures that the ledger reports to its caller.

use vstd::prelude::*;
use vstd::string::*;

verus! {

/// What went wrong, with the text that identifies it where there is one.
#[derive(Debug, Clone, PartialEq, Eq)]
pub enum ErrorKind {
    /// An entry's value token is absent or is not a signed integer.
    BlankEntryValue,
    /// The journal is not well-formed UTF-8 or breaks the record grammar.
    CorruptedLedgerFile,
    /// An entry given on the command line is not in `ACCOUNT=VALUE` form.
    InvalidEntryFormat(String),
    /// The date token of a record's header is not a calendar date.
    InvalidTransactionDate,
    /// The id token of a record's header is not an identifier.
    InvalidTransactionId,
    /// A transaction was given no entries.
    MissingTransactionEntries,
    /// A record's header lacks the named field.
    MissingTransactionField(String),
    /// The word for how often a transaction comes back is not known.
    RecurringPeriod(String),
    /// The entries do not sum to zero and no single value can be inferred.
    UnbalancedTransactionEntries,
    /// A referenced account is not among the existing ones.
    UnknownAccount(String),
}

/// The mathematical value of a failure: its kind and the text it carries.
pub enum Fault {
    BlankEntryValue,
    CorruptedLedgerFile,
    InvalidEntryFormat(Seq<char>),
    InvalidTransactionDate,
    InvalidTransactionId,
    MissingTransactionEntries,
    MissingTransactionField(Seq<char>),
    RecurringPeriod(Seq<char>),
    UnbalancedTransactionEntries,
    UnknownAccount(Seq<char>),
}

impl View for ErrorKind {
    type V = Fault;

    open spec fn view(&self) -> Fault {
        match self {
            ErrorKind::BlankEntryValue => Fault::BlankEntryValue,
            ErrorKind::CorruptedLedgerFile => Fault::CorruptedLedgerFile,
            ErrorKind::InvalidEntryFormat(entry) => Fault::InvalidEntryFormat(entry@),
            ErrorKind::InvalidTransactionDate => Fault::InvalidTransactionDate,
            ErrorKind::InvalidTransactionId => Fault::InvalidTransactionId,
            ErrorKind::MissingTransactionEntries => Fault::MissingTransactionEntries,
            ErrorKind::MissingTransactionField(field) => Fault::MissingTransactionField(field@),
            ErrorKind::RecurringPeriod(word) => Fault::RecurringPeriod(word@),
            ErrorKind::UnbalancedTransactionEntries => Fault::UnbalancedTransactionEntries,
            ErrorKind::UnknownAccount(name) => Fault::UnknownAccount(name@),
        }
    }
}

/// A failure of a ledger operation.
#[derive(Debug, Clone, PartialEq, Eq)]
pub struct Error {
    kind: ErrorKind,
}

impl View for Error {
    type V = Fault;

    closed spec fn view(&self) -> Fault {
        self.kind@
    }
}

/// The name of the header field that holds the date.
pub open spec fn date_field() -> Seq<char> {
    "date"@
}

/// The name of the header field that holds the identifier.
pub open spec fn id_field() -> Seq<char> {
    "id"@
}

/// The sentence that tells a failure to the user.
pub open spec fn fault_message(fault: Fault) -> Seq<char> {
    match fault {
        Fault::BlankEntryValue => "Entry has a blank value."@,
        Fault::CorruptedLedgerFile => "Ledger file contains corrupted data."@,
        Fault::InvalidEntryFormat(entry) => "Invalid entry transaction entry: '"@ + entry
            + "'. Must be in ACCOUNT=VALUE format."@,
        Fault::InvalidTransactionDate => "A transaction has an invalid date."@,
        Fault::InvalidTransactionId => "A transaction has an invalid id."@,
        Fault::MissingTransactionEntries => "Missing entries in transaction."@,
        Fault::MissingTransactionField(field) => "Transaction is missing the following: "@ + field
            + "."@,
        Fault::RecurringPeriod(word) => "Unknown recurring period: '"@ + word + "'."@,
        Fault::UnbalancedTransactionEntries => "A transaction has unbalanced entries."@,
        Fault::UnknownAccount(name) => "Unknown account: '"@ + name + "'."@,
    }
}

/// The process exit status that stands for a failure.
pub open spec fn fault_code(fault: Fault) -> int {
    match fault {
        Fault::BlankEntryValue => 2,
        Fault::CorruptedLedgerFile => 3,
        Fault::InvalidEntryFormat(_) => 4,
        Fault::InvalidTransactionDate => 7,
        Fault::InvalidTransactionId => 8,
        Fault::MissingTransactionEntries => 11,
        Fault::MissingTransactionField(_) => 12,
        Fault::RecurringPeriod(_) => 15,
        Fault::UnbalancedTransactionEntries => 13,
        Fault::UnknownAccount(_) => 14,
    }
}

impl Error {
    pub fn blank_entry_value() -> (e: Self)
        ensures
            e@ == Fault::BlankEntryValue,
    {
        Self::new(ErrorKind::BlankEntryValue)
    }

    pub fn corrupted_ledger_file() -> (e: Self)
        ensures
            e@ == Fault::CorruptedLedgerFile,
    {
        Self::new(ErrorKind::CorruptedLedgerFile)
    }

    pub fn invalid_entry_format(entry: &str) -> (e: Self)
        ensures
            e@ == Fault::InvalidEntryFormat(entry@),
    {
        Self::new(ErrorKind::InvalidEntryFormat(entry.to_owned()))
    }

    pub fn invalid_transaction_date() -> (e: Self)
        ensures
            e@ == Fault::InvalidTransactionDate,
    {
        Self::new(ErrorKind::InvalidTransactionDate)
    }

    pub fn invalid_transaction_id() -> (e: Self)
        ensures
            e@ == Fault::InvalidTransactionId,
    {
        Self::new(ErrorKind::InvalidTransactionId)
    }

    pub fn missing_transaction_entries() -> (e: Self)
        ensures
            e@ == Fault::MissingTransactionEntries,
    {
        Self::new(ErrorKind::MissingTransactionEntries)
    }

    pub fn missing_transaction_field(field: &str) -> (e: Self)
        ensures
            e@ == Fault::MissingTransactionField(field@),
    {
        Self::new(ErrorKind::MissingTransactionField(field.to_owned()))
    }

    pub fn recurring_period(word: &str) -> (e: Self)
        ensures
            e@ == Fault::RecurringPeriod(word@),
    {
        Self::new(ErrorKind::RecurringPeriod(word.to_owned()))
    }

    pub fn unbalanced_transaction_entries() -> (e: Self)
        ensures
            e@ == Fault::UnbalancedTransactionEntries,
    {
        Self::new(ErrorKind::UnbalancedTransactionEntries)
    }

    pub fn unknown_account(name: &str) -> (e: Self)
        ensures
            e@ == Fault::UnknownAccount(name@),
    {
        Self::new(ErrorKind::UnknownAccount(name.to_owned()))
    }

    fn new(kind: ErrorKind) -> (e: Self)
        ensures
            e@ == kind@,
    {
        Self { kind }
    }

    /// The kind of this failure.
    pub fn kind(&self) -> (kind: &ErrorKind)
        ensures
            kind@ == self@,
    {
        &self.kind
    }

    /// The sentence that tells this failure to the user.
    pub fn message(&self) -> (text: String)
        ensures
            text@ == fault_message(self@),
    {
        match &self.kind {
            ErrorKind::BlankEntryValue => "Entry has a blank value.".to_owned(),
            ErrorKind::CorruptedLedgerFile => "Ledger file contains corrupted data.".to_owned(),
            ErrorKind::InvalidEntryFormat(entry) => {
                let mut text = "Invalid entry transaction entry: '".to_owned();
                text.append(entry.as_str());
                text.append("'. Must be in ACCOUNT=VALUE format.");
                text
            },
            ErrorKind::InvalidTransactionDate => "A transaction has an invalid date.".to_owned(),
            ErrorKind::InvalidTransactionId => "A transaction has an invalid id.".to_owned(),
            ErrorKind::MissingTransactionEntries => "Missing entries in transaction.".to_owned(),
            ErrorKind::MissingTransactionField(field) => {
                let mut text = "Transaction is missing the following: ".to_owned();
                text.append(field.as_str());
                text.append(".");
                text
            },
            ErrorKind::RecurringPeriod(word) => {
                let mut text = "Unknown recurring period: '".to_owned();
                text.append(word.as_str());
                text.append("'.");
                text
            },
            ErrorKind::UnbalancedTransactionEntries => {
                "A transaction has unbalanced entries.".to_owned()
            },
            ErrorKind::UnknownAccount(name) => {
                let mut text = "Unknown account: '".to_owned();
                text.append(name.as_str());
                text.append("'.");
                text
            },
        }
    }

    /// The process exit status that stands for this failure.
    pub fn exit_code(&self) -> (code: i32)
        ensures
            code == fault_code(self@),
    {
        match &self.kind {
            ErrorKind::BlankEntryValue => 2,
            ErrorKind::CorruptedLedgerFile => 3,
            ErrorKind::InvalidEntryFormat(_) => 4,
            ErrorKind::InvalidTransactionDate => 7,
            ErrorKind::InvalidTransactionId => 8,
            ErrorKind::MissingTransactionEntries => 11,
            ErrorKind::MissingTransactionField(_) => 12,
            ErrorKind::RecurringPeriod(_) => 15,
            ErrorKind::UnbalancedTransactionEntries => 13,
            ErrorKind::UnknownAccount(_) => 14,
        }
    }
}

} // verus!
