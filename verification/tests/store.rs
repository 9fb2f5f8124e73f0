use sixp::account::Account;
use sixp::entry::Entry;
use sixp::error::Error;
use sixp::opts::{
    AccountType, AccountsOpts, EditAccoutOpts, LedgerCommands, ListAccountOpts, NewAccountOpts,
    RecurringPeriod,
};
use sixp::store::{
    filter_accounts_by_account_type, get_column_widths, load_saved_accounts, StoredAccount,
};

fn stored(name: &str, account_type: AccountType) -> StoredAccount {
    StoredAccount::new(String::from(name), account_type)
}

fn store() -> Vec<StoredAccount> {
    vec![
        stored("Checking", AccountType::Asset),
        stored("Rent", AccountType::Expense),
        stored("Savings Account", AccountType::Asset),
        stored("Checking", AccountType::Liability),
        stored("Pay", AccountType::Revenue),
    ]
}

#[test]
fn accounts_are_filtered_by_kind() {
    let assets = filter_accounts_by_account_type(store(), &AccountType::Asset);
    assert_eq!(
        assets,
        vec![stored("Checking", AccountType::Asset), stored("Savings Account", AccountType::Asset)]
    );
    assert!(filter_accounts_by_account_type(store(), &AccountType::Equity).is_empty());
}

#[test]
fn saved_names_are_taken_once() {
    assert_eq!(
        load_saved_accounts(&store()),
        vec!["Checking", "Rent", "Savings Account", "Pay"]
    );
    assert!(load_saved_accounts(&[]).is_empty());
}

#[test]
fn column_widths_fit_the_longest_cell() {
    assert_eq!(get_column_widths(&store()), (15, 9));
    assert_eq!(get_column_widths(&[]), (4, 4));
    assert_eq!(get_column_widths(&[stored("é", AccountType::Asset)]), (4, 5));
    assert_eq!(get_column_widths(&[stored("éééé", AccountType::Equity)]), (8, 6));
}

#[test]
fn kinds_have_their_words() {
    let kinds = [
        (AccountType::Asset, "asset"),
        (AccountType::Equity, "equity"),
        (AccountType::Expense, "expense"),
        (AccountType::Liability, "liability"),
        (AccountType::Revenue, "revenue"),
    ];
    for (kind, word) in kinds {
        assert_eq!(kind.label(), word);
        assert_eq!(kind.len(), word.len());
        assert!(kind.is(&kind));
    }
    assert!(!AccountType::Asset.is(&AccountType::Revenue));
}

#[test]
fn options_hand_back_what_they_were_given() {
    let new = NewAccountOpts::new(String::from("Checking Account"), AccountType::Asset);
    assert_eq!(new.name(), "Checking Account");
    assert_eq!(new.account_type(), AccountType::Asset);
    assert_eq!(ListAccountOpts::new(None).account_type(), None);
    assert_eq!(
        ListAccountOpts::new(Some(AccountType::Expense)).account_type(),
        Some(AccountType::Expense)
    );
    let edit = EditAccoutOpts::new(String::from("Old"), Some(String::from("New")), None);
    assert_eq!(edit.name(), "Old");
    assert_eq!(edit.new_name(), Some("New"));
    assert_eq!(edit.new_account_type(), None);
    let edit = EditAccoutOpts::new(String::from("Old"), None, Some(AccountType::Equity));
    assert_eq!(edit.new_name(), None);
    assert_eq!(edit.new_account_type(), Some(AccountType::Equity));
    assert!(AccountsOpts::new(true).display_all());
    assert!(!AccountsOpts::new(false).display_all());
    assert_eq!(LedgerCommands::New, LedgerCommands::New);
}

#[test]
fn an_account_totals_a_run_of_entries() {
    let account =
        Account::from_entries(&[Entry::new("A", 5), Entry::new("B", -7), Entry::new("A", 1)]);
    assert_eq!(account.name(), "A");
    assert_eq!(account.value(), -1);
    assert_eq!(Account::from_entries(&[]), Account::default());
}

#[test]
fn periods_are_read_in_any_case() {
    assert_eq!(RecurringPeriod::from_word("onetime"), Ok(RecurringPeriod::OneTime));
    assert_eq!(RecurringPeriod::from_word("Weekly"), Ok(RecurringPeriod::Weekly));
    assert_eq!(RecurringPeriod::from_word("BIWEEKLY"), Ok(RecurringPeriod::BiWeekly));
    assert_eq!(RecurringPeriod::from_word("mOnThLy"), Ok(RecurringPeriod::Monthly));
    assert_eq!("annually".parse::<RecurringPeriod>(), Ok(RecurringPeriod::Annually));
    assert_eq!(RecurringPeriod::from_word("wee\u{212a}ly"), Ok(RecurringPeriod::Weekly));
    assert_eq!(RecurringPeriod::from_word("Daily"), Err(Error::recurring_period("Daily")));
    assert_eq!(RecurringPeriod::from_word(""), Err(Error::recurring_period("")));
    assert_eq!(Error::recurring_period("Daily").exit_code(), 15);
    assert_eq!(Error::recurring_period("Daily").message(), "Unknown recurring period: 'Daily'.");
}
