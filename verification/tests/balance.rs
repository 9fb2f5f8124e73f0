use sixp::balance::validate_and_normalize_entries;
use sixp::date::Date;
use sixp::entry::Entry;
use sixp::error::{Error, ErrorKind};
use sixp::ledger::{new_transaction, sort_transaction_list};
use sixp::transaction::Transaction;

fn pair(account: &str, value: Option<isize>) -> (String, Option<isize>) {
    (String::from(account), value)
}

fn total(entries: &[Entry]) -> i128 {
    entries.iter().map(|entry| entry.value() as i128).sum()
}

#[test]
fn full_entries_pass_through_sorted() {
    let entries = validate_and_normalize_entries(&[
        pair("Expenses:Rent", Some(500)),
        pair("Assets:Checking", Some(-300)),
        pair("Assets:Cash", Some(-200)),
    ])
    .unwrap();
    assert_eq!(
        entries,
        vec![
            Entry::new("Assets:Cash", -200),
            Entry::new("Assets:Checking", -300),
            Entry::new("Expenses:Rent", 500),
        ]
    );
    assert_eq!(total(&entries), 0);
}

#[test]
fn full_entries_that_do_not_sum_to_zero_fail() {
    assert_eq!(
        validate_and_normalize_entries(&[pair("A", Some(500)), pair("B", Some(-499))]),
        Err(Error::unbalanced_transaction_entries())
    );
}

#[test]
fn single_entry_gets_the_offset_account() {
    let entries = validate_and_normalize_entries(&[pair("Assets:Checking", Some(1250))]).unwrap();
    assert_eq!(
        entries,
        vec![
            Entry::new("Assets:Checking", 1250),
            Entry::new("Equities:Starting Balances", -1250),
        ]
    );
    assert_eq!(total(&entries), 0);
}

#[test]
fn single_zero_entry_is_a_legal_no_op() {
    let entries = validate_and_normalize_entries(&[pair("Z", Some(0))]).unwrap();
    assert_eq!(entries, vec![Entry::new("Equities:Starting Balances", 0), Entry::new("Z", 0)]);
}

#[test]
fn two_unset_values_fail() {
    assert_eq!(
        validate_and_normalize_entries(&[pair("A", None), pair("B", None)]),
        Err(Error::unbalanced_transaction_entries())
    );
    assert_eq!(
        validate_and_normalize_entries(&[pair("A", Some(5)), pair("B", None), pair("C", None)]),
        Err(Error::unbalanced_transaction_entries())
    );
}

#[test]
fn an_unset_value_beside_the_offset_pair_fails() {
    assert_eq!(
        validate_and_normalize_entries(&[pair("A", Some(500)), pair("B", None)]),
        Err(Error::unbalanced_transaction_entries())
    );
    assert_eq!(
        validate_and_normalize_entries(&[pair("Checking", None)]),
        Err(Error::unbalanced_transaction_entries())
    );
}

#[test]
fn an_offset_that_does_not_fit_fails() {
    assert_eq!(
        validate_and_normalize_entries(&[pair("A", Some(isize::MIN))]),
        Err(Error::unbalanced_transaction_entries())
    );
    let entries = validate_and_normalize_entries(&[pair("A", Some(isize::MAX))]).unwrap();
    assert_eq!(entries[1], Entry::new("Equities:Starting Balances", isize::MIN + 1));
}

#[test]
fn large_values_are_summed_without_wrapping() {
    assert_eq!(
        validate_and_normalize_entries(&[
            pair("A", Some(isize::MAX)),
            pair("B", Some(isize::MAX)),
            pair("C", Some(2)),
        ]),
        Err(Error::unbalanced_transaction_entries())
    );
    let entries = validate_and_normalize_entries(&[
        pair("A", Some(isize::MAX)),
        pair("B", Some(isize::MIN)),
        pair("C", Some(1)),
    ])
    .unwrap();
    assert_eq!(total(&entries), 0);
}

#[test]
fn entries_of_one_account_keep_their_order() {
    let entries = validate_and_normalize_entries(&[
        pair("b", Some(3)),
        pair("a", Some(2)),
        pair("b", Some(-4)),
        pair("a", Some(-1)),
    ])
    .unwrap();
    assert_eq!(
        entries,
        vec![Entry::new("a", 2), Entry::new("a", -1), Entry::new("b", 3), Entry::new("b", -4)]
    );
}

fn day(year: i32, month: u32, day: u32) -> Date {
    Date::new(year, month, day).unwrap()
}

#[test]
fn a_transaction_without_entries_is_refused() {
    let r = Transaction::create(day(2024, 1, 1), true, String::new(), &[]);
    assert_eq!(r.unwrap_err().kind(), &ErrorKind::MissingTransactionEntries);
    let r = Transaction::with_id(day(2024, 1, 1), 7, true, String::new(), &[]);
    assert_eq!(r, Err(Error::missing_transaction_entries()));
}

#[test]
fn a_transaction_is_made_of_balanced_entries() {
    let t = Transaction::with_id(
        day(2024, 5, 17),
        42,
        false,
        String::from("opening"),
        &[pair("Assets:Cash", Some(10))],
    )
    .unwrap();
    assert_eq!(t.date(), day(2024, 5, 17));
    assert_eq!(t.id(), 42);
    assert!(!t.has_cleared());
    assert_eq!(t.description(), "opening");
    assert_eq!(
        t.entries(),
        &vec![Entry::new("Assets:Cash", 10), Entry::new("Equities:Starting Balances", -10)]
    );
}

#[test]
fn a_transaction_that_does_not_balance_is_refused() {
    let r = Transaction::create(
        day(2024, 1, 1),
        true,
        String::new(),
        &[pair("A", Some(1)), pair("B", Some(1))],
    );
    assert_eq!(r.unwrap_err().kind(), &ErrorKind::UnbalancedTransactionEntries);
}

#[test]
fn created_transactions_get_ids_of_their_own() {
    let entries = [pair("A", Some(1)), pair("B", Some(-1))];
    let a = Transaction::create(day(2024, 1, 1), true, String::new(), &entries).unwrap();
    let b = Transaction::create(day(2024, 1, 1), true, String::new(), &entries).unwrap();
    assert_ne!(a.id(), b.id());
    assert_eq!(a.entries(), b.entries());
}

fn plain(year: i32, month: u32, d: u32, id: u128) -> Transaction {
    Transaction::new(day(year, month, d), id, true, String::new(), vec![Entry::new("A", 0)])
}

#[test]
fn transactions_are_sorted_by_date_and_stay_stable() {
    let sorted = sort_transaction_list(vec![
        plain(2024, 3, 1, 1),
        plain(2023, 12, 31, 2),
        plain(2024, 3, 1, 3),
        plain(2024, 1, 31, 4),
        plain(2023, 12, 31, 5),
    ]);
    let ids: Vec<u128> = sorted.iter().map(|t| t.id()).collect();
    assert_eq!(ids, vec![2, 5, 4, 1, 3]);
}

#[test]
fn a_new_transaction_goes_to_its_date() {
    let ledger = vec![plain(2024, 1, 1, 1), plain(2024, 3, 1, 2)];
    let ledger = new_transaction(
        ledger,
        day(2024, 2, 1),
        true,
        String::from("between"),
        &[pair("A", Some(5)), pair("B", Some(-5))],
    )
    .unwrap();
    assert_eq!(ledger.len(), 3);
    assert_eq!(ledger[0].id(), 1);
    assert_eq!(ledger[1].description(), "between");
    assert_eq!(ledger[2].id(), 2);
    let refused = new_transaction(ledger, day(2024, 2, 1), true, String::new(), &[]);
    assert_eq!(refused.unwrap_err().kind(), &ErrorKind::MissingTransactionEntries);
}

#[test]
fn an_entry_of_a_pair_counts_a_missing_value_as_zero() {
    assert_eq!(Entry::from_pair(&pair("A", Some(-3))), Entry::new("A", -3));
    assert_eq!(Entry::from_pair(&pair("A", None)), Entry::new("A", 0));
    assert_eq!(Entry::new("A", 4).duplicate(), Entry::new("A", 4));
    assert!(Entry::new("A", 4).precedes(&Entry::new("A", 1)));
    assert!(Entry::new("A", 4).precedes(&Entry::new("AB", 1)));
    assert!(!Entry::new("B", 4).precedes(&Entry::new("AB", 1)));
    assert!(Entry::new("Z", 4).precedes(&Entry::new("a", 1)));
    assert!(Entry::new("z", 4).precedes(&Entry::new("é", 1)));
}
