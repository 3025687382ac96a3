use adzuki::ast::{Amount, BeancountNode, Posting};
use adzuki::validator::{validate_beancount, validate_beancount_checked};

fn posting(account: &str, amount: Option<(&str, &str)>) -> Posting {
    Posting {
        flag: None,
        account: account.to_string(),
        amount: amount.map(|(n, c)| Amount { number: n.to_string(), currency: c.to_string() }),
    }
}

fn txn(payee: Option<&str>, narration: Option<&str>, postings: Vec<Posting>) -> BeancountNode {
    BeancountNode::Transaction {
        date: "2023-01-01".to_string(),
        flag: "*".to_string(),
        payee: payee.map(|s| s.to_string()),
        narration: narration.map(|s| s.to_string()),
        postings,
    }
}

#[test]
fn unbalanced_transaction_is_reported_with_context() {
    let nodes = vec![txn(
        Some("Test"),
        Some("Unbalanced transaction"),
        vec![
            posting("Assets:Checking", Some(("-10.00", "USD"))),
            posting("Expenses:Food", Some(("15.00", "USD"))),
        ],
    )];
    let errors = validate_beancount(&nodes);
    assert_eq!(errors.len(), 1);
    assert_eq!(
        errors[0].message,
        "Validation error for Transaction on 2023-01-01 Test Unbalanced transaction: Transaction does not balance: sum of USD is 5.00"
    );
    assert_eq!(errors[0].span, 0..0);
}

#[test]
fn multiple_missing_amounts_are_reported() {
    let nodes = vec![txn(
        Some("Test"),
        Some("Multiple missing amounts"),
        vec![posting("Assets:Checking", None), posting("Expenses:Food", None)],
    )];
    let errors = validate_beancount(&nodes);
    assert_eq!(errors.len(), 1);
    assert_eq!(
        errors[0].message,
        "Validation error for Transaction on 2023-01-01 Test Multiple missing amounts: Transaction has more than one posting with missing amount"
    );
}

#[test]
fn valid_transactions_give_no_errors() {
    let nodes = vec![
        txn(
            None,
            Some("Groceries"),
            vec![posting("Assets:Checking", Some(("-10.00", "USD"))), posting("Expenses:Food", None)],
        ),
        txn(None, None, vec![]),
    ];
    assert!(validate_beancount(&nodes).is_empty());
    assert!(validate_beancount(&[]).is_empty());
}

#[test]
fn context_is_trimmed_without_payee_and_narration() {
    let nodes = vec![
        txn(None, None, vec![posting("Expenses:Food", None)]),
        txn(None, None, vec![posting("Assets:Cash", Some(("1", "USD")))]),
    ];
    let errors = validate_beancount(&nodes);
    assert_eq!(errors.len(), 2);
    assert_eq!(
        errors[0].message,
        "Validation error for Transaction on 2023-01-01: Cannot infer missing amount: no other amounts in transaction to balance against"
    );
    assert_eq!(
        errors[1].message,
        "Validation error for Transaction on 2023-01-01: Transaction does not balance: sum of USD is 1"
    );
}

#[test]
fn checked_validation_reports_overflow() {
    let big = "79228162514264337593543950335";
    let bad = vec![txn(None, None, vec![posting("Assets:A", Some((big, "USD"))), posting("Assets:B", Some((big, "USD")))])];
    assert!(validate_beancount_checked(&bad).is_none());
    let ok = vec![txn(Some("P"), None, vec![posting("Assets:A", Some(("1", "USD")))])];
    let errors = validate_beancount_checked(&ok).unwrap();
    assert_eq!(errors.len(), 1);
    assert_eq!(
        errors[0].message,
        "Validation error for Transaction on 2023-01-01 P: Transaction does not balance: sum of USD is 1"
    );
}
