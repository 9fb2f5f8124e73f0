use sixp::date::Date;
use sixp::entry::Entry;
use sixp::error::{Error, ErrorKind};
use sixp::journal::{read_transactions, write_transactions};
use sixp::transaction::Transaction;

const ID_A: &str = "01ARZ3NDEKTSV4RRFFQ69G5FAV";
const ID_B: &str = "01BX5ZZKBKACTAV9WEVGEMMVRZ";

fn id_of(text: &str) -> u128 {
    ulid::Ulid::from_string(text).unwrap().0
}

fn day(year: i32, month: u32, day: u32) -> Date {
    Date::new(year, month, day).unwrap()
}

fn rent() -> Transaction {
    Transaction::new(
        day(2024, 1, 15),
        id_of(ID_A),
        true,
        String::from("Rent for January"),
        vec![Entry::new("Assets:Checking", -50000), Entry::new("Expenses:Rent", 50000)],
    )
}

fn pending() -> Transaction {
    Transaction::new(
        day(2024, 2, 29),
        id_of(ID_B),
        false,
        String::new(),
        vec![Entry::new("Assets:Savings Account", 7), Entry::new("Income:Interest", -7)],
    )
}

#[test]
fn encode_renders_the_exact_record() {
    let bytes = write_transactions(&[rent()]);
    assert_eq!(
        String::from_utf8(bytes).unwrap(),
        "2024-01-15 01ARZ3NDEKTSV4RRFFQ69G5FAV Rent for January\n\tAssets:Checking -50000\n\tExpenses:Rent 50000"
    );
}

#[test]
fn encode_marks_a_pending_transaction() {
    let bytes = write_transactions(&[pending()]);
    assert_eq!(
        String::from_utf8(bytes).unwrap(),
        "2024-02-29 01BX5ZZKBKACTAV9WEVGEMMVRZ *\n\tAssets:Savings Account 7\n\tIncome:Interest -7"
    );
}

#[test]
fn encode_marks_a_pending_transaction_with_description() {
    let t = Transaction::new(
        day(999, 12, 1),
        id_of(ID_B),
        false,
        String::from("* starred"),
        vec![Entry::new("A", 0)],
    );
    let bytes = write_transactions(&[t]);
    assert_eq!(
        String::from_utf8(bytes.clone()).unwrap(),
        "0999-12-01 01BX5ZZKBKACTAV9WEVGEMMVRZ * * starred\n\tA 0"
    );
    let back = read_transactions(&bytes).unwrap();
    assert_eq!(back.len(), 1);
    assert!(!back[0].has_cleared());
    assert_eq!(back[0].description(), "* starred");
}

#[test]
fn encode_joins_records_with_a_blank_line() {
    let bytes = write_transactions(&[rent(), pending()]);
    let text = String::from_utf8(bytes).unwrap();
    assert_eq!(text.matches("\n\n").count(), 1);
    assert!(text.contains("50000\n\n2024-02-29 "));
    assert!(!text.ends_with('\n'));
}

#[test]
fn encode_of_nothing_is_empty() {
    assert!(write_transactions(&[]).is_empty());
}

#[test]
fn round_trip_gives_the_transactions_back() {
    let transactions = vec![rent(), pending()];
    let bytes = write_transactions(&transactions);
    let back = read_transactions(&bytes).unwrap();
    assert_eq!(back, transactions);
    assert_eq!(back[0].date(), day(2024, 1, 15));
    assert_eq!(back[0].id(), id_of(ID_A));
    assert!(back[0].has_cleared());
    assert_eq!(back[0].description(), "Rent for January");
    assert_eq!(back[0].entries()[1], Entry::new("Expenses:Rent", 50000));
    assert!(!back[1].has_cleared());
    assert_eq!(back[1].description(), "");
}

#[test]
fn round_trip_keeps_text_beyond_ascii() {
    let t = Transaction::new(
        day(2023, 6, 30),
        id_of(ID_A),
        true,
        String::from("café  au lait"),
        vec![Entry::new("Actifs:Épargne", isize::MIN + 1), Entry::new("Dépenses", isize::MAX)],
    );
    let bytes = write_transactions(&[t]);
    let back = read_transactions(&bytes).unwrap();
    assert_eq!(back[0].description(), "café  au lait");
    assert_eq!(back[0].entries()[0], Entry::new("Actifs:Épargne", isize::MIN + 1));
    assert_eq!(back[0].entries()[1], Entry::new("Dépenses", isize::MAX));
}

#[test]
fn encoding_sorts_entries_by_account() {
    let t = Transaction::new(
        day(2024, 3, 1),
        id_of(ID_A),
        true,
        String::new(),
        vec![Entry::new("b", 1), Entry::new("a", 2), Entry::new("B", -3), Entry::new("a", 0)],
    );
    let text = String::from_utf8(write_transactions(&[t])).unwrap();
    assert_eq!(text, "2024-03-01 01ARZ3NDEKTSV4RRFFQ69G5FAV\n\tB -3\n\ta 2\n\ta 0\n\tb 1");
}

#[test]
fn decoding_zero_bytes_gives_no_transaction() {
    assert_eq!(read_transactions(&[]), Ok(Vec::new()));
}

#[test]
fn decode_reads_records_and_lowercase_ids() {
    let text = "2024-01-15 01arz3ndektsv4rrffq69g5fav first one\n\tAssets:Checking +5\n\tX -5\n\n2024-01-16 01BX5ZZKBKACTAV9WEVGEMMVRZ *\n\tOnly 0";
    let back = read_transactions(text.as_bytes()).unwrap();
    assert_eq!(back.len(), 2);
    assert_eq!(back[0].id(), id_of(ID_A));
    assert_eq!(back[0].description(), "first one");
    assert_eq!(back[0].entries().len(), 2);
    assert_eq!(back[0].entries()[0].value(), 5);
    assert_eq!(back[1].date(), day(2024, 1, 16));
    assert!(!back[1].has_cleared());
    assert_eq!(back[1].entries()[0], Entry::new("Only", 0));
}

#[test]
fn decode_keeps_entry_order_of_the_file() {
    let text = "2024-01-15 01ARZ3NDEKTSV4RRFFQ69G5FAV\n\tz 1\n\ta -1";
    let back = read_transactions(text.as_bytes()).unwrap();
    assert_eq!(back[0].entries()[0].account(), "z");
    assert_eq!(back[0].entries()[1].account(), "a");
}

#[test]
fn decode_takes_the_account_up_to_the_last_space() {
    let text = "2024-01-15 01ARZ3NDEKTSV4RRFFQ69G5FAV\n\tMy Checking Account 12\n\t-12";
    let back = read_transactions(text.as_bytes()).unwrap();
    assert_eq!(back[0].entries()[0], Entry::new("My Checking Account", 12));
    assert_eq!(back[0].entries()[1], Entry::new("", -12));
}

#[test]
fn decode_ignores_a_blank_line_at_the_end() {
    let text = "2024-01-15 01ARZ3NDEKTSV4RRFFQ69G5FAV\n\tA 0\n\n";
    assert_eq!(read_transactions(text.as_bytes()).unwrap().len(), 1);
}

fn failure(text: &[u8]) -> ErrorKind {
    read_transactions(text).unwrap_err().kind().clone()
}

#[test]
fn decode_rejects_drift() {
    let text = "2024-01-15 01ARZ3NDEKTSV4RRFFQ69G5FAV drift\n\tA 7\n\tB 3";
    assert_eq!(read_transactions(text.as_bytes()), Err(Error::unbalanced_transaction_entries()));
}

#[test]
fn decode_rejects_malformed_utf8() {
    let mut bytes = b"2024-01-15 01ARZ3NDEKTSV4RRFFQ69G5FAV\n\tA".to_vec();
    bytes.push(0xff);
    bytes.extend_from_slice(b" 0");
    assert_eq!(failure(&bytes), ErrorKind::CorruptedLedgerFile);
}

#[test]
fn decode_rejects_a_line_without_tab() {
    let text = "2024-01-15 01ARZ3NDEKTSV4RRFFQ69G5FAV\nA 0";
    assert_eq!(failure(text.as_bytes()), ErrorKind::CorruptedLedgerFile);
    let trailing = "2024-01-15 01ARZ3NDEKTSV4RRFFQ69G5FAV\n\tA 0\n";
    assert_eq!(failure(trailing.as_bytes()), ErrorKind::CorruptedLedgerFile);
}

#[test]
fn decode_reports_missing_fields() {
    assert_eq!(failure(b"\n\n"), ErrorKind::MissingTransactionField(String::from("date")));
    assert_eq!(
        failure(b"2024-01-15\n\tA 0"),
        ErrorKind::MissingTransactionField(String::from("id"))
    );
}

#[test]
fn decode_reports_invalid_date() {
    assert_eq!(
        failure(b"2024-02-30 01ARZ3NDEKTSV4RRFFQ69G5FAV\n\tA 0"),
        ErrorKind::InvalidTransactionDate
    );
    assert_eq!(
        failure(b"yesterday 01ARZ3NDEKTSV4RRFFQ69G5FAV\n\tA 0"),
        ErrorKind::InvalidTransactionDate
    );
    assert_eq!(
        failure(b"+12024-01-15 01ARZ3NDEKTSV4RRFFQ69G5FAV\n\tA 0"),
        ErrorKind::InvalidTransactionDate
    );
}

#[test]
fn decode_reports_invalid_id() {
    assert_eq!(failure(b"2024-01-15 nope\n\tA 0"), ErrorKind::InvalidTransactionId);
    assert_eq!(
        failure(b"2024-01-15 01ARZ3NDEKTSV4RRFFQ69G5FAU\n\tA 0"),
        ErrorKind::InvalidTransactionId
    );
    assert_eq!(failure(b"2024-01-15 \n\tA 0"), ErrorKind::InvalidTransactionId);
}

#[test]
fn decode_reports_blank_entry_value() {
    assert_eq!(
        failure(b"2024-01-15 01ARZ3NDEKTSV4RRFFQ69G5FAV\n\tChecking"),
        ErrorKind::BlankEntryValue
    );
    assert_eq!(
        failure(b"2024-01-15 01ARZ3NDEKTSV4RRFFQ69G5FAV\n\tChecking \n\tB 0"),
        ErrorKind::BlankEntryValue
    );
    assert_eq!(
        failure(b"2024-01-15 01ARZ3NDEKTSV4RRFFQ69G5FAV\n\tChecking 99999999999999999999999"),
        ErrorKind::BlankEntryValue
    );
}

#[test]
fn decode_reports_missing_entries() {
    assert_eq!(
        failure(b"2024-01-15 01ARZ3NDEKTSV4RRFFQ69G5FAV only a header"),
        ErrorKind::MissingTransactionEntries
    );
}

#[test]
fn decode_stops_at_the_first_bad_record() {
    let text = "2024-01-15 01ARZ3NDEKTSV4RRFFQ69G5FAV\n\tA 0\n\nbroken\n\n2024-01-15 x\n\tA 0";
    assert_eq!(
        failure(text.as_bytes()),
        ErrorKind::MissingTransactionField(String::from("id"))
    );
}

#[test]
fn decode_reads_a_year_chrono_accepts_in_short_form() {
    let text = "2024-1-5 01ARZ3NDEKTSV4RRFFQ69G5FAV\n\tA 0";
    let back = read_transactions(text.as_bytes()).unwrap();
    assert_eq!(back[0].date(), day(2024, 1, 5));
}

#[test]
fn dates_are_checked_against_the_calendar() {
    assert!(Date::new(2024, 2, 29).is_some());
    assert!(Date::new(2023, 2, 29).is_none());
    assert!(Date::new(1900, 2, 29).is_none());
    assert!(Date::new(2000, 2, 29).is_some());
    assert!(Date::new(2024, 4, 31).is_none());
    assert!(Date::new(2024, 13, 1).is_none());
    assert!(Date::new(2024, 0, 1).is_none());
    assert!(Date::new(2024, 1, 0).is_none());
    assert!(Date::new(10000, 1, 1).is_none());
    assert!(Date::new(-1, 1, 1).is_none());
    let d = Date::new(0, 12, 31).unwrap();
    assert_eq!((d.year(), d.month(), d.day()), (0, 12, 31));
    assert!(day(2023, 12, 31).not_after(&day(2024, 1, 1)));
    assert!(!day(2024, 1, 2).not_after(&day(2024, 1, 1)));
    assert!(day(2024, 1, 1).not_after(&day(2024, 1, 1)));
}

#[test]
fn exit_codes_tell_failures_apart() {
    assert_eq!(Error::blank_entry_value().exit_code(), 2);
    assert_eq!(Error::corrupted_ledger_file().exit_code(), 3);
    assert_eq!(Error::invalid_entry_format("x").exit_code(), 4);
    assert_eq!(Error::invalid_transaction_date().exit_code(), 7);
    assert_eq!(Error::invalid_transaction_id().exit_code(), 8);
    assert_eq!(Error::missing_transaction_entries().exit_code(), 11);
    assert_eq!(Error::missing_transaction_field("id").exit_code(), 12);
    assert_eq!(Error::unbalanced_transaction_entries().exit_code(), 13);
    assert_eq!(Error::unknown_account("Rent").exit_code(), 14);
}

#[test]
fn decode_reads_the_first_and_the_last_day() {
    let text = "0000-02-29 01ARZ3NDEKTSV4RRFFQ69G5FAV\n\tA 0\n\n9999-12-31 01ARZ3NDEKTSV4RRFFQ69G5FAV\n\tA 0";
    let back = read_transactions(text.as_bytes()).unwrap();
    assert_eq!(back[0].date(), day(0, 2, 29));
    assert_eq!(back[1].date(), day(9999, 12, 31));
    assert_eq!(write_transactions(&back), text.as_bytes());
}

#[test]
fn ids_are_written_in_26_digits_of_base_32() {
    let least = Transaction::new(day(2024, 1, 1), 0, true, String::new(), vec![Entry::new("A", 0)]);
    let most =
        Transaction::new(day(2024, 1, 1), u128::MAX, true, String::new(), vec![Entry::new("A", 0)]);
    let one = Transaction::new(day(2024, 1, 1), 33, true, String::new(), vec![Entry::new("A", 0)]);
    assert_eq!(
        String::from_utf8(write_transactions(&[least])).unwrap(),
        "2024-01-01 00000000000000000000000000\n\tA 0"
    );
    assert_eq!(
        String::from_utf8(write_transactions(&[most])).unwrap(),
        "2024-01-01 7ZZZZZZZZZZZZZZZZZZZZZZZZZ\n\tA 0"
    );
    assert_eq!(
        String::from_utf8(write_transactions(&[one])).unwrap(),
        "2024-01-01 00000000000000000000000011\n\tA 0"
    );
}

#[test]
fn ids_keep_their_low_128_bits() {
    let back = read_transactions(b"2024-01-01 ZZZZZZZZZZZZZZZZZZZZZZZZZZ\n\tA 0").unwrap();
    assert_eq!(back[0].id(), u128::MAX);
    let back = read_transactions(b"2024-01-01 8000000000000000000000000H\n\tA 0").unwrap();
    assert_eq!(back[0].id(), 17);
    let back = read_transactions(b"2024-01-01 0000000000000000000000jKmZ\n\tA 0").unwrap();
    assert_eq!(back[0].id(), ((18 * 32 + 19) * 32 + 20) * 32 + 31);
}

#[test]
fn decode_starts_a_new_record_after_each_blank_line() {
    let text = "2024-01-01 01ARZ3NDEKTSV4RRFFQ69G5FAV\n\tA 0\n\n\n2024-01-01 01ARZ3NDEKTSV4RRFFQ69G5FAV\n\tA 0";
    assert_eq!(
        failure(text.as_bytes()),
        ErrorKind::MissingTransactionField(String::from("date"))
    );
}

#[test]
fn round_trip_of_many_transactions() {
    let mut transactions = Vec::new();
    for i in 0..40u32 {
        transactions.push(Transaction::new(
            day(2000 + i as i32, 1 + i % 12, 1 + i % 28),
            (i as u128) << (3 * i),
            i % 3 != 0,
            if i % 2 == 0 { String::new() } else { format!("note {} *", i) },
            vec![
                Entry::new("Assets:Cash", -(i as isize) * 1000003),
                Entry::new(&format!("Expenses:Kind {}", i), (i as isize) * 1000003),
            ],
        ));
    }
    let bytes = write_transactions(&transactions);
    assert_eq!(read_transactions(&bytes), Ok(transactions));
}

#[test]
fn messages_name_the_failure() {
    assert_eq!(Error::blank_entry_value().message(), "Entry has a blank value.");
    assert_eq!(Error::corrupted_ledger_file().message(), "Ledger file contains corrupted data.");
    assert_eq!(
        Error::invalid_entry_format("a=b").message(),
        "Invalid entry transaction entry: 'a=b'. Must be in ACCOUNT=VALUE format."
    );
    assert_eq!(Error::invalid_transaction_date().message(), "A transaction has an invalid date.");
    assert_eq!(Error::invalid_transaction_id().message(), "A transaction has an invalid id.");
    assert_eq!(Error::missing_transaction_entries().message(), "Missing entries in transaction.");
    assert_eq!(
        Error::missing_transaction_field("date").message(),
        "Transaction is missing the following: date."
    );
    assert_eq!(
        Error::unbalanced_transaction_entries().message(),
        "A transaction has unbalanced entries."
    );
    assert_eq!(Error::unknown_account("Rent").message(), "Unknown account: 'Rent'.");
}

#[test]
fn values_are_read_to_the_ends_of_the_word() {
    let text = "2024-01-01 01ARZ3NDEKTSV4RRFFQ69G5FAV\n\tA -9223372036854775808\n\tB 9223372036854775807\n\tC +0000001\n\tD -0";
    let back = read_transactions(text.as_bytes()).unwrap();
    let values: Vec<isize> = back[0].entries().iter().map(|entry| entry.value()).collect();
    assert_eq!(values, vec![isize::MIN, isize::MAX, 1, 0]);
    assert_eq!(
        failure(b"2024-01-01 01ARZ3NDEKTSV4RRFFQ69G5FAV\n\tA -9223372036854775809"),
        ErrorKind::BlankEntryValue
    );
    assert_eq!(
        failure(b"2024-01-01 01ARZ3NDEKTSV4RRFFQ69G5FAV\n\tA 9223372036854775808"),
        ErrorKind::BlankEntryValue
    );
    assert_eq!(failure(b"2024-01-01 01ARZ3NDEKTSV4RRFFQ69G5FAV\n\tA -"), ErrorKind::BlankEntryValue);
    assert_eq!(failure(b"2024-01-01 01ARZ3NDEKTSV4RRFFQ69G5FAV\n\tA 1-"), ErrorKind::BlankEntryValue);
}
