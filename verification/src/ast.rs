//! The syntax of Beancount directives as the parser hands them on: numbers
//! still as text.
use vstd::prelude::*;

verus! {

/// An amount as written: the number's text and the currency.
#[derive(Debug, Clone, PartialEq)]
pub struct Amount {
    pub number: String,
    pub currency: String,
}

/// A posting as written: an optional flag, the account, an optional amount.
#[derive(Debug, Clone, PartialEq)]
pub struct Posting {
    pub flag: Option<String>,
    pub account: String,
    pub amount: Option<Amount>,
}

/// A Beancount directive.
#[derive(Debug, Clone, PartialEq)]
pub enum BeancountNode {
    Transaction {
        date: String,
        flag: String,
        payee: Option<String>,
        narration: Option<String>,
        postings: Vec<Posting>,
    },
}

} // verus!
