//! Errors of the Beancount front end, with the byte span they concern.
use vstd::prelude::*;

verus! {

/// An error about the Beancount source: the byte span and the message.
#[derive(Debug, PartialEq)]
pub struct BeancountParseError {
    pub span: std::ops::Range<usize>,
    pub message: String,
}

} // verus!
