use sixp::account::{reconcile_accounts, Account};
use sixp::args::parse_entries;
use sixp::date::Date;
use sixp::entry::Entry;
use sixp::error::{Error, ErrorKind};
use sixp::opts::{NewTransactionOpts, RecurringPeriod};
use sixp::transaction::Transaction;
use sixp::validate::{
    extract_total_debits_and_credits, get_account_names, validate_accounts_exist,
    validate_new_transaction_opts, validate_values_balance,
};

fn transaction(entries: Vec<Entry>) -> Transaction {
    Transaction::new(Date::new(2024, 1, 1).unwrap(), 1, true, String::new(), entries)
}

fn names(list: &[&str]) -> Vec<String> {
    list.iter().map(|name| String::from(*name)).collect()
}

#[test]
fn reconciliation_totals_each_account() {
    let accounts = reconcile_accounts(&[
        transaction(vec![Entry::new("A", 100), Entry::new("B", -100)]),
        transaction(vec![Entry::new("A", -50), Entry::new("B", 50)]),
    ]);
    assert_eq!(
        accounts,
        vec![Account::new(String::from("A"), 50), Account::new(String::from("B"), -50)]
    );
}

#[test]
fn reconciliation_groups_whatever_the_order() {
    let accounts = reconcile_accounts(&[
        transaction(vec![Entry::new("b", 1), Entry::new("a", 2), Entry::new("b", 3)]),
        transaction(vec![Entry::new("c", -10), Entry::new("a", 4), Entry::new("B", 0)]),
    ]);
    let seen: Vec<(&str, i128)> =
        accounts.iter().map(|account| (account.name().as_str(), account.value())).collect();
    assert_eq!(seen, vec![("B", 0), ("a", 6), ("b", 4), ("c", -10)]);
}

#[test]
fn reconciliation_of_nothing_is_empty() {
    assert!(reconcile_accounts(&[]).is_empty());
    assert!(reconcile_accounts(&[transaction(Vec::new())]).is_empty());
}

#[test]
fn reconciliation_does_not_wrap() {
    let accounts = reconcile_accounts(&[
        transaction(vec![Entry::new("A", isize::MAX), Entry::new("A", isize::MAX)]),
        transaction(vec![Entry::new("A", 2)]),
    ]);
    assert_eq!(accounts[0].value(), 2 * (isize::MAX as i128) + 2);
}

#[test]
fn the_gate_passes_known_accounts() {
    assert_eq!(
        validate_accounts_exist(&names(&["Checking", "Rent"]), &names(&["Rent", "Rent"])),
        Ok(())
    );
    assert_eq!(validate_accounts_exist(&[], &[]), Ok(()));
}

#[test]
fn the_gate_names_an_unknown_account() {
    assert_eq!(
        validate_accounts_exist(&names(&["Checking"]), &names(&["Checking", "Rent"])),
        Err(Error::unknown_account("Rent"))
    );
}

#[test]
fn the_gate_names_the_first_unknown_account_in_order() {
    let r = validate_accounts_exist(&names(&["b"]), &names(&["d", "b", "c", "a b", "a", "e"]));
    assert_eq!(r.unwrap_err().kind(), &ErrorKind::UnknownAccount(String::from("a")));
}

#[test]
fn typed_entries_are_read() {
    assert_eq!(parse_entries("Assets:Cash"), Ok((String::from("Assets:Cash"), None)));
    assert_eq!(parse_entries("Assets:Cash=12.50"), Ok((String::from("Assets:Cash"), Some(1250))));
    assert_eq!(parse_entries("A.B=-7"), Ok((String::from("AB"), Some(-7))));
    assert_eq!(parse_entries("A=1=2"), Ok((String::from("A"), Some(2))));
    assert_eq!(parse_entries("=5"), Ok((String::new(), Some(5))));
    assert_eq!(parse_entries("A.B"), Ok((String::from("A.B"), None)));
}

#[test]
fn typed_entries_without_a_number_are_refused() {
    assert_eq!(parse_entries("A=").unwrap_err().kind(), &ErrorKind::InvalidEntryFormat(String::from("A=")));
    assert_eq!(parse_entries("A=1,5"), Err(Error::invalid_entry_format("A=1,5")));
    assert_eq!(parse_entries("A=.=."), Err(Error::invalid_entry_format("A=.=.")));
}

fn opts(accounts: &[&str], values: &[&str]) -> NewTransactionOpts {
    NewTransactionOpts::new(names(accounts), names(values), RecurringPeriod::Monthly)
}

fn pair(account: &str, value: isize) -> (String, isize) {
    (String::from(account), value)
}

#[test]
fn options_are_parted_into_debits_and_credits() {
    let (debits, credits) =
        opts(&["Rent", "Checking", "Cash"], &["500", "-300", "-200"])
            .categorize_accounts_and_values()
            .unwrap();
    assert_eq!(debits, vec![pair("Rent", 500)]);
    assert_eq!(credits, vec![pair("Checking", -300), pair("Cash", -200)]);
}

#[test]
fn the_account_without_value_takes_the_balance() {
    let (debits, credits) =
        opts(&["Rent", "Checking"], &["$5.00"]).categorize_accounts_and_values().unwrap();
    assert_eq!(debits, vec![pair("Rent", 500)]);
    assert_eq!(credits, vec![pair("Checking", -500)]);
    let (debits, credits) =
        opts(&["Idle"], &[]).categorize_accounts_and_values().unwrap();
    assert!(debits.is_empty() && credits.is_empty());
}

#[test]
fn two_accounts_without_value_are_refused() {
    let r = opts(&["A", "B", "C"], &["7"]).categorize_accounts_and_values();
    assert_eq!(r, Err(Error::unbalanced_transaction_entries()));
}

#[test]
fn a_value_that_is_no_number_is_refused() {
    let r = opts(&["A", "B"], &["1", "one"]).categorize_accounts_and_values();
    assert_eq!(r, Err(Error::invalid_entry_format("one")));
    let r = opts(&["A"], &["1", "one"]).categorize_accounts_and_values();
    assert!(r.is_ok());
}

#[test]
fn account_names_are_taken_once() {
    let found = get_account_names(
        &[pair("b", 1), pair("a", 2), pair("b", 3)],
        &[pair("c", -1), pair("a", -2)],
    );
    assert_eq!(found, names(&["b", "a", "c"]));
}

#[test]
fn totals_are_taken_over_the_pairs_both_have() {
    let totals = extract_total_debits_and_credits(
        &[pair("a", 1), pair("b", 2), pair("c", 4)],
        &[pair("x", -8), pair("y", -16)],
    );
    assert_eq!(totals, (3, -24));
}

#[test]
fn totals_balance_when_they_cancel_or_one_is_nothing() {
    assert_eq!(validate_values_balance(500, -500), Ok(()));
    assert_eq!(validate_values_balance(0, -500), Ok(()));
    assert_eq!(validate_values_balance(500, 0), Ok(()));
    assert_eq!(validate_values_balance(0, 0), Ok(()));
    assert_eq!(validate_values_balance(500, -499), Err(Error::unbalanced_transaction_entries()));
    assert_eq!(
        validate_values_balance(i128::MAX, i128::MIN),
        Err(Error::unbalanced_transaction_entries())
    );
}

#[test]
fn new_transaction_options_are_checked() {
    let saved = names(&["Rent", "Checking"]);
    let (debits, credits, period) =
        validate_new_transaction_opts(&saved, &opts(&["Rent", "Checking"], &["500", "-500"]))
            .unwrap();
    assert_eq!(debits, vec![pair("Rent", 500)]);
    assert_eq!(credits, vec![pair("Checking", -500)]);
    assert_eq!(period, RecurringPeriod::Monthly);
    assert_eq!(
        validate_new_transaction_opts(&saved, &opts(&["Rent", "Savings"], &["500", "-500"])),
        Err(Error::unknown_account("Savings"))
    );
    assert_eq!(
        validate_new_transaction_opts(&saved, &opts(&["Rent", "Checking"], &["500", "-400"])),
        Err(Error::unbalanced_transaction_entries())
    );
    assert_eq!(
        validate_new_transaction_opts(&saved, &opts(&["Rent", "Checking"], &["x", "-400"])),
        Err(Error::invalid_entry_format("x"))
    );
}

#[test]
fn the_default_period_is_one_time() {
    assert_eq!(RecurringPeriod::default(), RecurringPeriod::OneTime);
    assert_eq!(opts(&[], &[]).recurring_period(), RecurringPeriod::Monthly);
}
