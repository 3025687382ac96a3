use adzuki::decimal::Decimal;
use adzuki::ledger::{Amount, Posting, Transaction};
use adzuki::reports::{calculate_trial_balances, calculate_trial_balances_checked, AccountBalance};
use std::str::FromStr;

fn dec(s: &str) -> Decimal {
    let u = rust_decimal::Decimal::from_str(s).unwrap().unpack();
    Decimal { negative: u.negative, scale: u.scale, hi: u.hi, mid: u.mid, lo: u.lo }
}

fn to_rust(d: Decimal) -> rust_decimal::Decimal {
    rust_decimal::Decimal::from_parts(d.lo, d.mid, d.hi, d.negative, d.scale)
}

fn posting(account: &str, number: &str, currency: &str) -> Posting {
    Posting {
        flag: None,
        account: account.to_string(),
        amount: Some(Amount { number: dec(number), currency: currency.to_string() }),
    }
}

fn txn(date: &str, postings: Vec<Posting>) -> Transaction {
    Transaction { date: date.to_string(), flag: "*".to_string(), payee: None, narration: None, postings }
}

fn find<'a>(balances: &'a [AccountBalance], account: &str) -> &'a AccountBalance {
    balances.iter().find(|b| b.account == account).unwrap()
}

#[test]
fn test_calculate_trial_balances() {
    let transactions = vec![
        txn(
            "2023-01-01",
            vec![posting("Assets:Checking", "100.00", "USD"), posting("Income:Salary", "-100.00", "USD")],
        ),
        txn(
            "2023-01-02",
            vec![posting("Assets:Checking", "-20.00", "USD"), posting("Expenses:Food", "20.00", "USD")],
        ),
    ];

    let balances = calculate_trial_balances(&transactions);
    assert_eq!(balances.len(), 3);

    let checking = find(&balances, "Assets:Checking");
    assert_eq!(to_rust(checking.balance_of("USD").unwrap()), rust_decimal::Decimal::from_str("80.00").unwrap());

    let food = find(&balances, "Expenses:Food");
    assert_eq!(to_rust(food.balance_of("USD").unwrap()), rust_decimal::Decimal::from_str("20.00").unwrap());

    let income = find(&balances, "Income:Salary");
    assert_eq!(to_rust(income.balance_of("USD").unwrap()), rust_decimal::Decimal::from_str("-100.00").unwrap());
}

#[test]
fn trial_balances_are_sorted_by_account() {
    let transactions = vec![txn(
        "2023-01-01",
        vec![
            posting("Income:Salary", "-1", "USD"),
            posting("Assets:Checking", "1", "USD"),
            posting("Expenses:Food", "0", "USD"),
        ],
    )];
    let balances = calculate_trial_balances(&transactions);
    let names: Vec<&str> = balances.iter().map(|b| b.account.as_str()).collect();
    assert_eq!(names, vec!["Assets:Checking", "Expenses:Food", "Income:Salary"]);
}

#[test]
fn trial_balances_keep_currencies_apart() {
    let transactions = vec![
        txn("2023-01-01", vec![posting("Assets:Cash", "5", "EUR"), posting("Assets:Cash", "7", "USD")]),
        txn("2023-01-02", vec![posting("Assets:Cash", "1.5", "EUR")]),
    ];
    let balances = calculate_trial_balances(&transactions);
    assert_eq!(balances.len(), 1);
    let cash = &balances[0];
    assert_eq!(cash.balances.len(), 2);
    assert_eq!(cash.balances[0].0, "EUR");
    assert_eq!(to_rust(cash.balance_of("EUR").unwrap()), rust_decimal::Decimal::from_str("6.5").unwrap());
    assert_eq!(to_rust(cash.balance_of("USD").unwrap()), rust_decimal::Decimal::from_str("7").unwrap());
    assert!(cash.balance_of("GBP").is_none());
}

#[test]
fn postings_without_amounts_are_not_counted() {
    let transactions = vec![txn(
        "2023-01-01",
        vec![Posting { flag: None, account: "Expenses:Food".to_string(), amount: None }],
    )];
    assert!(calculate_trial_balances(&transactions).is_empty());
    assert!(calculate_trial_balances(&[]).is_empty());
}

#[test]
fn checked_trial_balances_report_overflow() {
    let big = "79228162514264337593543950335";
    let ok = vec![txn("2023-01-01", vec![posting("Assets:A", "1", "USD")])];
    let v = calculate_trial_balances_checked(&ok).unwrap();
    assert_eq!(v.len(), 1);
    let bad = vec![txn("2023-01-01", vec![posting("Assets:A", big, "USD"), posting("Assets:A", big, "USD")])];
    assert!(calculate_trial_balances_checked(&bad).is_none());
}
