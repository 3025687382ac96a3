use adzuki::ast;
use adzuki::decimal::Decimal;
use adzuki::ledger::Transaction;
use std::str::FromStr;

fn dec(s: &str) -> Decimal {
    let u = rust_decimal::Decimal::from_str(s).unwrap().unpack();
    Decimal { negative: u.negative, scale: u.scale, hi: u.hi, mid: u.mid, lo: u.lo }
}

fn to_rust(d: Decimal) -> rust_decimal::Decimal {
    rust_decimal::Decimal::from_parts(d.lo, d.mid, d.hi, d.negative, d.scale)
}

fn posting(account: &str, amount: Option<(&str, &str)>) -> ast::Posting {
    ast::Posting {
        flag: None,
        account: account.to_string(),
        amount: amount.map(|(n, c)| ast::Amount { number: n.to_string(), currency: c.to_string() }),
    }
}

fn build(ps: &[ast::Posting]) -> Result<Transaction, adzuki::ledger::BalancingError> {
    Transaction::try_from_ast("2023-01-01", "*", &None, &None, ps)
}

#[test]
fn test_balanced_transaction() {
    let ast_postings = vec![
        posting("Assets:Checking", Some(("-10.00", "USD"))),
        posting("Expenses:Food", Some(("10.00", "USD"))),
    ];
    let txn = build(&ast_postings).unwrap();
    assert_eq!(txn.postings.len(), 2);
}

#[test]
fn test_unbalanced_transaction_errors() {
    let ast_postings = vec![
        posting("Assets:Checking", Some(("-10.00", "USD"))),
        posting("Expenses:Food", Some(("15.00", "USD"))),
    ];
    let err = build(&ast_postings).unwrap_err();
    assert!(err.message.contains("Transaction does not balance"));
}

#[test]
fn test_infer_missing_amount() {
    let ast_postings = vec![
        posting("Assets:Checking", Some(("-10.00", "USD"))),
        posting("Expenses:Food", None),
    ];
    let txn = build(&ast_postings).unwrap();
    assert_eq!(txn.postings.len(), 2);
    let amount = txn.postings[1].amount.as_ref().unwrap();
    assert_eq!(to_rust(amount.number), rust_decimal::Decimal::from_str("10.00").unwrap());
    assert_eq!(amount.currency, "USD");
}

#[test]
fn test_multiple_missing_amounts_errors() {
    let ast_postings = vec![posting("Assets:Checking", None), posting("Expenses:Food", None)];
    let err = build(&ast_postings).unwrap_err();
    assert!(err.message.contains("more than one posting with missing amount"));
}

#[test]
fn unbalanced_message_names_currency_and_sum() {
    let ast_postings = vec![
        posting("Assets:Checking", Some(("-10.00", "USD"))),
        posting("Expenses:Food", Some(("15.00", "USD"))),
    ];
    let err = build(&ast_postings).unwrap_err();
    assert_eq!(err.message, "Transaction does not balance: sum of USD is 5.00");
}

#[test]
fn inferred_amount_is_exact_negation() {
    let ast_postings = vec![
        posting("Assets:Checking", Some(("-10.00", "USD"))),
        posting("Expenses:Food", None),
    ];
    let txn = build(&ast_postings).unwrap();
    assert_eq!(txn.postings[1].amount.as_ref().unwrap().number, dec("10.00"));
    assert_eq!(txn.postings[0].amount.as_ref().unwrap().number, dec("-10.00"));
    assert_eq!(txn.date, "2023-01-01");
    assert_eq!(txn.flag, "*");
    assert_eq!(txn.postings[1].account, "Expenses:Food");
}

#[test]
fn unparsable_number_is_an_error() {
    let ast_postings = vec![
        posting("Assets:Checking", Some(("ten", "USD"))),
        posting("Expenses:Food", Some(("10.00", "USD"))),
    ];
    let err = build(&ast_postings).unwrap_err();
    assert!(err.message.starts_with("Invalid decimal number 'ten': "));
}

#[test]
fn missing_amount_with_two_unbalanced_currencies_is_an_error() {
    let ast_postings = vec![
        posting("Assets:Checking", Some(("-10.00", "USD"))),
        posting("Assets:Savings", Some(("-3", "EUR"))),
        posting("Expenses:Food", None),
    ];
    let err = build(&ast_postings).unwrap_err();
    assert_eq!(err.message, "Cannot infer missing amount: multiple currencies have non-zero sums");
}

#[test]
fn missing_amount_alone_is_an_error() {
    let ast_postings = vec![posting("Expenses:Food", None)];
    let err = build(&ast_postings).unwrap_err();
    assert_eq!(
        err.message,
        "Cannot infer missing amount: no other amounts in transaction to balance against"
    );
}

#[test]
fn missing_amount_against_balanced_sums_is_zero() {
    let ast_postings = vec![
        posting("Assets:Checking", Some(("-10.00", "USD"))),
        posting("Expenses:Food", Some(("10.00", "USD"))),
        posting("Equity:Rounding", None),
    ];
    let txn = build(&ast_postings).unwrap();
    let amount = txn.postings[2].amount.as_ref().unwrap();
    assert!(to_rust(amount.number).is_zero());
    assert_eq!(amount.currency, "USD");
}

#[test]
fn multi_currency_balanced_transaction_builds() {
    let ast_postings = vec![
        posting("Assets:Checking", Some(("-10.00", "USD"))),
        posting("Expenses:Food", Some(("10.00", "USD"))),
        posting("Assets:Euro", Some(("-5", "EUR"))),
        posting("Expenses:Travel", Some(("5", "EUR"))),
    ];
    let txn = build(&ast_postings).unwrap();
    assert_eq!(txn.postings.len(), 4);
}

#[test]
fn transaction_without_amounts_builds() {
    let ast_postings: Vec<ast::Posting> = Vec::new();
    let txn = Transaction::try_from_ast(
        "2023-02-03",
        "!",
        &Some("Shop".to_string()),
        &Some("Lunch".to_string()),
        &ast_postings,
    )
    .unwrap();
    assert!(txn.postings.is_empty());
    assert_eq!(txn.payee, Some("Shop".to_string()));
    assert_eq!(txn.narration, Some("Lunch".to_string()));
    assert_eq!(txn.flag, "!");
}

#[test]
fn checked_build_agrees_and_reports_overflow() {
    let ast_postings = vec![
        posting("Assets:Checking", Some(("-10.00", "USD"))),
        posting("Expenses:Food", None),
    ];
    let txn = Transaction::try_from_ast_checked("2023-01-01", "*", &None, &None, &ast_postings)
        .unwrap()
        .unwrap();
    assert_eq!(txn.postings[1].amount.as_ref().unwrap().number, dec("10.00"));

    let big = "79228162514264337593543950335";
    let overflowing = vec![
        posting("Assets:A", Some((big, "USD"))),
        posting("Assets:B", Some((big, "USD"))),
    ];
    assert!(Transaction::try_from_ast_checked("2023-01-01", "*", &None, &None, &overflowing).is_none());
}

#[test]
fn decimal_helpers() {
    assert!(Decimal::zero().is_zero());
    assert!(!dec("1.5").is_zero());
    assert_eq!(dec("1.5").neg(), dec("-1.5"));
}
